//! Scripts: splitting SQL text into statements, and running the
//! statements of a script one after another.
//!
//! A script is read line by line (lines end at `\n`, and a `\r` before the
//! `\n` is dropped). Lines that are blank or start with `--` after
//! trimming are skipped; the others are joined, each followed by a space,
//! until a line whose trimmed text ends with `;` closes a statement text.
//! The trimmed text of each statement text is parsed on its own, and every
//! statement it holds is kept, in order; text after the last `;` is
//! ignored. A text that the parser cannot safely be handed (see
//! `parse_admissible`) is refused as a parse error.
use vstd::prelude::*;
use crate::error::{error_debug_text, ErrorModel, ExecutionError};
use crate::formatter::{cells_view, table_text};
use crate::handler::{
    execute_query_with_columns, execute_stmt, query_columns, query_unrunnable, query_rows, query_cannot_run,
    stmt_outcome, QueryResult,
};
use crate::sql_ast::SqlStatement;
use crate::sql_parser::{
    granted_by_at, granted_by_before, is_blank, is_word_char, nesting_total, nesting_weight, parse_admissible,
    parse_sql, parsed_view, same_letter, skip_blanks, sql_parse_result, word_at, word_weight,
};
use crate::storage_engine_interface::{DbModel, StorageEngine};
use crate::text::{push_char, text_chars};

verus! {

// ---------------------------------------------------------------------
// Lines and trimming
// ---------------------------------------------------------------------

/// Unicode `White_Space`: what `char::is_whitespace` tests and `str::trim`
/// strips.
pub open spec fn is_white_space(c: char) -> bool {
    let u = c as u32;
    (9 <= u && u <= 13) || u == 32 || u == 0x85 || u == 0xA0 || u == 0x1680 || (0x2000 <= u && u <= 0x200A)
        || u == 0x2028 || u == 0x2029 || u == 0x202F || u == 0x205F || u == 0x3000
}

/// The text without its leading white space.
pub open spec fn trim_start(s: Seq<char>) -> Seq<char>
    decreases s.len(),
{
    if s.len() > 0 && is_white_space(s[0]) {
        trim_start(s.drop_first())
    } else {
        s
    }
}

/// The text without its trailing white space.
pub open spec fn trim_end(s: Seq<char>) -> Seq<char>
    decreases s.len(),
{
    if s.len() > 0 && is_white_space(s.last()) {
        trim_end(s.drop_last())
    } else {
        s
    }
}

/// The text without leading and trailing white space (`str::trim`).
pub open spec fn trimmed(s: Seq<char>) -> Seq<char> {
    trim_end(trim_start(s))
}

/// A line without the `\r` of a `\r\n` ending.
pub open spec fn strip_cr(line: Seq<char>) -> Seq<char> {
    if line.len() > 0 && line.last() == '\r' {
        line.drop_last()
    } else {
        line
    }
}

/// The lines that a text's `\n` characters close, and the text after the
/// last `\n`.
pub open spec fn line_state(s: Seq<char>) -> (Seq<Seq<char>>, Seq<char>)
    decreases s.len(),
{
    if s.len() == 0 {
        (Seq::empty(), Seq::empty())
    } else {
        let (done, cur) = line_state(s.drop_last());
        if s.last() == '\n' {
            (done.push(strip_cr(cur)), Seq::empty())
        } else {
            (done, cur.push(s.last()))
        }
    }
}

/// The lines of a text, as `str::lines` splits it: at each `\n`, without
/// the `\r` of a `\r\n`; a last line without `\n` counts when it is not
/// empty.
pub open spec fn text_lines(s: Seq<char>) -> Seq<Seq<char>> {
    let (done, cur) = line_state(s);
    if cur.len() == 0 {
        done
    } else {
        done.push(cur)
    }
}

fn white_space(c: char) -> (r: bool)
    ensures
        r == is_white_space(c),
{
    let u = c as u32;
    (9 <= u && u <= 13) || u == 32 || u == 0x85 || u == 0xA0 || u == 0x1680 || (0x2000 <= u && u <= 0x200A)
        || u == 0x2028 || u == 0x2029 || u == 0x202F || u == 0x205F || u == 0x3000
}

/// The bounds of the trimmed part of `cs[from..to]`.
fn trim_range(cs: &Vec<char>, from: usize, to: usize) -> (r: (usize, usize))
    requires
        from <= to <= cs@.len(),
    ensures
        from <= r.0 <= r.1 <= to,
        cs@.subrange(r.0 as int, r.1 as int) == trimmed(cs@.subrange(from as int, to as int)),
{
    let mut a = from;
    while a < to && white_space(cs[a])
        invariant
            from <= a <= to <= cs@.len(),
            trim_start(cs@.subrange(from as int, to as int)) == trim_start(cs@.subrange(a as int, to as int)),
        decreases to - a,
    {
        assert(cs@.subrange(a as int, to as int).drop_first() =~= cs@.subrange(a + 1, to as int));
        a = a + 1;
    }
    let mut b = to;
    while b > a && white_space(cs[b - 1])
        invariant
            from <= a <= b <= to <= cs@.len(),
            trim_start(cs@.subrange(from as int, to as int)) == cs@.subrange(a as int, to as int),
            trim_end(cs@.subrange(a as int, to as int)) == trim_end(cs@.subrange(a as int, b as int)),
        decreases b - a,
    {
        assert(cs@.subrange(a as int, b as int).drop_last() =~= cs@.subrange(a as int, b - 1));
        b = b - 1;
    }
    (a, b)
}

/// The lines of a text of characters.
fn split_lines(cs: &Vec<char>) -> (lines: Vec<Vec<char>>)
    ensures
        lines@.map_values(|l: Vec<char>| l@) == text_lines(cs@),
{
    let mut lines: Vec<Vec<char>> = Vec::new();
    let mut cur: Vec<char> = Vec::new();
    let mut i: usize = 0;
    proof {
        assert(cs@.take(0) =~= Seq::<char>::empty());
        assert(lines@.map_values(|l: Vec<char>| l@) =~= Seq::<Seq<char>>::empty());
    }
    while i < cs.len()
        invariant
            i <= cs@.len(),
            line_state(cs@.take(i as int)) == (lines@.map_values(|l: Vec<char>| l@), cur@),
        decreases cs@.len() - i,
    {
        proof {
            assert(cs@.take(i + 1).drop_last() =~= cs@.take(i as int));
            assert(cs@.take(i + 1).last() == cs@[i as int]);
        }
        let c = cs[i];
        if c == '\n' {
            let n = cur.len();
            if n > 0 && cur[n - 1] == '\r' {
                cur.pop();
            }
            let ghost prev = lines@.map_values(|l: Vec<char>| l@);
            lines.push(cur);
            cur = Vec::new();
            proof {
                assert(lines@.map_values(|l: Vec<char>| l@) =~= prev.push(lines@[lines@.len() - 1]@));
                assert(cur@ =~= Seq::<char>::empty());
            }
        } else {
            cur.push(c);
        }
        i = i + 1;
    }
    proof {
        assert(cs@.take(i as int) =~= cs@);
    }
    if cur.len() > 0 {
        let ghost prev = lines@.map_values(|l: Vec<char>| l@);
        lines.push(cur);
        proof {
            assert(lines@.map_values(|l: Vec<char>| l@) =~= prev.push(lines@[lines@.len() - 1]@));
        }
    }
    lines
}

// ---------------------------------------------------------------------
// Statement texts
// ---------------------------------------------------------------------

/// A line that takes part in a statement: not blank and not a `--`
/// comment.
pub open spec fn kept_line(line: Seq<char>) -> bool {
    let t = trimmed(line);
    t.len() > 0 && !(t.len() >= 2 && t[0] == '-' && t[1] == '-')
}

/// A line that closes a statement: its trimmed text ends with `;`.
pub open spec fn closes_statement(line: Seq<char>) -> bool {
    let t = trimmed(line);
    t.len() > 0 && t.last() == ';'
}

/// The statement texts that a list of lines closes, and the text of the
/// statement still open after them.
pub open spec fn statement_state(lines: Seq<Seq<char>>) -> (Seq<Seq<char>>, Seq<char>)
    decreases lines.len(),
{
    if lines.len() == 0 {
        (Seq::empty(), Seq::empty())
    } else {
        let (texts, cur) = statement_state(lines.drop_last());
        let line = lines.last();
        if !kept_line(line) {
            (texts, cur)
        } else {
            let next = cur + line.push(' ');
            if closes_statement(line) {
                (texts.push(trimmed(next)), Seq::empty())
            } else {
                (texts, next)
            }
        }
    }
}

/// The texts of the statements of a script, trimmed, in order.
pub open spec fn statement_texts(sql: Seq<char>) -> Seq<Seq<char>> {
    statement_state(text_lines(sql)).0
}

/// Blank lines and `--` comment lines, wherever they stand, do not change
/// the statements of a script.
pub proof fn law_skipped_lines_ignored(lines: Seq<Seq<char>>, i: int, line: Seq<char>)
    requires
        0 <= i <= lines.len(),
        !kept_line(line),
    ensures
        statement_state(lines.insert(i, line)) == statement_state(lines),
    decreases lines.len(),
{
    let with = lines.insert(i, line);
    if i == lines.len() {
        assert(with.drop_last() =~= lines);
        assert(with.last() == line);
    } else {
        assert(with.drop_last() =~= lines.drop_last().insert(i, line));
        assert(with.last() == lines.last());
        law_skipped_lines_ignored(lines.drop_last(), i, line);
    }
}

/// `cs[from..to]` as a string.
fn chars_string(cs: &Vec<char>, from: usize, to: usize) -> (s: String)
    requires
        from <= to <= cs@.len(),
    ensures
        s@ == cs@.subrange(from as int, to as int),
{
    let mut s = String::new();
    let mut i = from;
    while i < to
        invariant
            from <= i <= to <= cs@.len(),
            s@ == cs@.subrange(from as int, i as int),
        decreases to - i,
    {
        push_char(&mut s, cs[i]);
        i = i + 1;
        assert(s@ =~= cs@.subrange(from as int, i as int));
    }
    s
}

/// Splits a script into the trimmed texts of its statements.
fn split_statements(sql: &str) -> (texts: Vec<String>)
    ensures
        texts@.map_values(|t: String| t@) == statement_texts(sql@),
{
    let cs = text_chars(sql);
    let lines = split_lines(&cs);
    let ghost lv = lines@.map_values(|l: Vec<char>| l@);
    let mut texts: Vec<String> = Vec::new();
    let mut current: Vec<char> = Vec::new();
    let mut i: usize = 0;
    proof {
        assert(lv.take(0) =~= Seq::<Seq<char>>::empty());
        assert(texts@.map_values(|t: String| t@) =~= Seq::<Seq<char>>::empty());
    }
    while i < lines.len()
        invariant
            i <= lines@.len(),
            lv == lines@.map_values(|l: Vec<char>| l@),
            lv == text_lines(sql@),
            statement_state(lv.take(i as int)) == (texts@.map_values(|t: String| t@), current@),
        decreases lines@.len() - i,
    {
        proof {
            assert(lv.take(i + 1).drop_last() =~= lv.take(i as int));
            assert(lv.take(i + 1).last() == lines@[i as int]@);
        }
        let line = &lines[i];
        let (a, b) = trim_range(line, 0, line.len());
        proof {
            assert(line@.subrange(0, line@.len() as int) =~= line@);
        }
        let is_comment = b - a >= 2 && line[a] == '-' && line[a + 1] == '-';
        if b > a && !is_comment {
            let ghost before = current@;
            let mut k: usize = 0;
            while k < line.len()
                invariant
                    k <= line@.len(),
                    current@ == before + line@.take(k as int),
                decreases line@.len() - k,
            {
                current.push(line[k]);
                k = k + 1;
                assert(current@ =~= before + line@.take(k as int));
            }
            current.push(' ');
            proof {
                assert(current@ =~= before + line@.push(' '));
            }
            if line[b - 1] == ';' {
                let (ca, cb) = trim_range(&current, 0, current.len());
                proof {
                    assert(current@.subrange(0, current@.len() as int) =~= current@);
                }
                let text = chars_string(&current, ca, cb);
                let ghost prev = texts@.map_values(|t: String| t@);
                texts.push(text);
                current = Vec::new();
                proof {
                    assert(texts@.map_values(|t: String| t@) =~= prev.push(texts@[texts@.len() - 1]@));
                    assert(current@ =~= Seq::<char>::empty());
                }
            }
        }
        i = i + 1;
    }
    proof {
        assert(lv.take(i as int) =~= lv);
    }
    texts
}

// ---------------------------------------------------------------------
// Parsing a script
// ---------------------------------------------------------------------

/// The message for a statement text that does not parse.
pub open spec fn parse_error_message(text: Seq<char>, error: Seq<char>) -> Seq<char> {
    "Parse error for '"@ + text + "': "@ + error
}

/// Why a text is not handed to the parser.
pub open spec fn refused_text_reason() -> Seq<char> {
    "statement is nested too deeply or uses GRANTED BY"@
}

/// What one statement text gives, from what the parser made of it: every
/// statement parsed, in order, or the parse error.
pub open spec fn text_statements(
    text: Seq<char>,
    parsed: Result<Seq<SqlStatement>, Seq<char>>,
) -> Result<Seq<SqlStatement>, Seq<char>> {
    match parsed {
        Ok(statements) => Ok(statements),
        Err(e) => Err(parse_error_message(text, e)),
    }
}

/// What the parser is answered for a text: its result where the text may
/// be handed to it (`parse_admissible`), else a refusal.
pub open spec fn guarded_parse(text: Seq<char>) -> Result<Seq<SqlStatement>, Seq<char>> {
    if parse_admissible(text) {
        sql_parse_result(text)
    } else {
        Err(refused_text_reason())
    }
}

/// The statements of a list of texts, parsed in order; the first text
/// that does not parse gives the error.
pub open spec fn parsed_statements(texts: Seq<Seq<char>>) -> Result<Seq<SqlStatement>, Seq<char>>
    decreases texts.len(),
{
    if texts.len() == 0 {
        Ok(Seq::empty())
    } else {
        match parsed_statements(texts.drop_last()) {
            Err(e) => Err(e),
            Ok(statements) => match text_statements(texts.last(), guarded_parse(texts.last())) {
                Err(e) => Err(e),
                Ok(more) => Ok(statements + more),
            },
        }
    }
}

/// The statements of a script.
pub open spec fn script_statements(sql: Seq<char>) -> Result<Seq<SqlStatement>, Seq<char>> {
    parsed_statements(statement_texts(sql))
}

/// What a statement text contributes to its script, given what the parser
/// answered for it: every statement parsed, in order, or
/// `Parse error for '<text>': <error>`.
pub fn parsed_text_statements(text: &str, parsed: Result<Vec<SqlStatement>, String>) -> (r: Result<Vec<SqlStatement>, String>)
    ensures
        parsed_view(r) == text_statements(text@, parsed_view(parsed)),
{
    match parsed {
        Ok(statements) => Ok(statements),
        Err(e) => {
            let mut m = String::from_str("Parse error for '");
            m.append(text);
            m.append("': ");
            m.append(e.as_str());
            assert(m@ =~= parse_error_message(text@, e@));
            Err(m)
        },
    }
}

/// The words that `nesting_weight` looks for, in the order the weighing
/// functions index them.
spec fn weighted_words(words: Seq<Vec<char>>) -> bool {
    &&& words.len() == 9
    &&& words[0]@ == "explain"@
    &&& words[1]@ == "describe"@
    &&& words[2]@ == "prepare"@
    &&& words[3]@ == "case"@
    &&& words[4]@ == "interval"@
    &&& words[5]@ == "select"@
    &&& words[6]@ == "not"@
    &&& words[7]@ == "with"@
    &&& words[8]@ == "values"@
}

/// What the word starting at position `i` of `cs` weighs (`word_weight`).
fn word_weight_at(cs: &Vec<char>, i: usize, words: &Vec<Vec<char>>) -> (w: usize)
    requires
        weighted_words(words@),
    ensures
        w as nat == word_weight(cs@, i as int),
{
    if word_at_position(cs, i, &words[0]) || word_at_position(cs, i, &words[1])
        || word_at_position(cs, i, &words[2]) {
        28
    } else if word_at_position(cs, i, &words[3]) || word_at_position(cs, i, &words[4]) {
        8
    } else if word_at_position(cs, i, &words[5]) {
        7
    } else if word_at_position(cs, i, &words[6]) {
        5
    } else {
        2
    }
}

/// What the character at position `i` of `cs` weighs (`nesting_weight`).
fn nesting_weight_at(cs: &Vec<char>, i: usize, words: &Vec<Vec<char>>) -> (w: usize)
    requires
        i < cs@.len(),
        weighted_words(words@),
    ensures
        w as nat == nesting_weight(cs@, i as int),
        w <= 28,
{
    let c = cs[i];
    if c == '(' {
        assert(i < cs.len());
        let j = skip_blanks_from(cs, i + 1);
        if j < cs.len() && (cs[j] == '(' || cs[j] == '-' || cs[j] == '/' || word_at_position(cs, j, &words[5])
            || word_at_position(cs, j, &words[7]) || word_at_position(cs, j, &words[8])) {
            12
        } else {
            4
        }
    } else if c == '[' {
        12
    } else if c == ')' || c == ']' || c == ',' || c == ';' || c == '\'' || c == '"' || c == '`' {
        0
    } else if c == '-' || c == '+' {
        5
    } else if word_char(c) {
        if i == 0 || !word_char(cs[i - 1]) {
            word_weight_at(cs, i, words)
        } else {
            0
        }
    } else if '!' <= c && c <= '~' {
        2
    } else {
        0
    }
}

/// The nesting budget that `cs` uses stays within `nesting_budget`.
fn within_nesting_budget(cs: &Vec<char>) -> (r: bool)
    ensures
        r == (nesting_total(cs@, cs@.len() as int) <= 256),
{
    let words: Vec<Vec<char>> = vec![
        text_chars("explain"),
        text_chars("describe"),
        text_chars("prepare"),
        text_chars("case"),
        text_chars("interval"),
        text_chars("select"),
        text_chars("not"),
        text_chars("with"),
        text_chars("values"),
    ];
    let mut total: usize = 0;
    let mut i: usize = 0;
    while i < cs.len()
        invariant
            i <= cs@.len(),
            weighted_words(words@),
            total as nat == nesting_total(cs@, i as int),
            total <= 256,
        decreases cs@.len() - i,
    {
        let w = nesting_weight_at(cs, i, &words);
        assert(nesting_total(cs@, i + 1) == total + w);
        if total + w > 256 {
            proof {
                lemma_nesting_total_grows(cs@, i + 1, cs@.len() as int);
            }
            return false;
        }
        total = total + w;
        i = i + 1;
    }
    true
}

proof fn lemma_nesting_total_grows(s: Seq<char>, m: int, n: int)
    requires
        0 <= m <= n,
    ensures
        nesting_total(s, m) <= nesting_total(s, n),
    decreases n - m,
{
    if m < n {
        lemma_nesting_total_grows(s, m, n - 1);
    }
}

fn blank(c: char) -> (r: bool)
    ensures
        r == is_blank(c),
{
    !('!' <= c && c <= '~')
}

/// The first position at or after `j` that holds printable ASCII.
fn skip_blanks_from(cs: &Vec<char>, j: usize) -> (r: usize)
    requires
        j <= cs@.len(),
    ensures
        r as int == skip_blanks(cs@, j as int),
        j <= r <= cs@.len(),
{
    let mut k = j;
    while k < cs.len() && blank(cs[k])
        invariant
            j <= k <= cs@.len(),
            skip_blanks(cs@, j as int) == skip_blanks(cs@, k as int),
        decreases cs@.len() - k,
    {
        k = k + 1;
    }
    k
}

/// Whether the keywords `GRANTED BY` may start at position `i` of `cs`.
fn granted_by_at_position(cs: &Vec<char>, i: usize, granted: &Vec<char>) -> (r: bool)
    requires
        granted@ == "granted"@,
    ensures
        r == granted_by_at(cs@, i as int),
{
    proof {
        reveal_strlit("granted");
    }
    if !word_at_position(cs, i, granted) {
        return false;
    }
    assert(granted@.len() == 7);
    assert(word_at(cs@, i as int, granted@));
    assert(i + 7 <= cs.len());
    let j = skip_blanks_from(cs, i + 7);
    j < cs.len() && (cs[j] == 'b' || cs[j] == 'B' || cs[j] == '-' || cs[j] == '/')
}

/// Whether a text may be handed to the parser (`parse_admissible`).
pub fn parse_admissible_text(text: &str) -> (r: bool)
    ensures
        r == parse_admissible(text@),
{
    let cs = text_chars(text);
    if !within_nesting_budget(&cs) {
        return false;
    }
    let granted = text_chars("granted");
    let mut i: usize = 0;
    while i < cs.len()
        invariant
            i <= cs@.len(),
            cs@ == text@,
            granted@ == "granted"@,
            nesting_total(cs@, cs@.len() as int) <= 256,
            !granted_by_before(cs@, i as int),
        decreases cs@.len() - i,
    {
        if granted_by_at_position(&cs, i, &granted) {
            proof {
                lemma_granted_by_stays(cs@, i + 1, cs@.len() as int);
            }
            return false;
        }
        i = i + 1;
    }
    true
}

proof fn lemma_granted_by_stays(s: Seq<char>, m: int, n: int)
    requires
        0 < m <= n,
        granted_by_at(s, m - 1),
    ensures
        granted_by_before(s, n),
    decreases n - m,
{
    if m < n {
        lemma_granted_by_stays(s, m, n - 1);
    }
}

fn word_char(c: char) -> (r: bool)
    ensures
        r == is_word_char(c),
{
    ('a' <= c && c <= 'z') || ('A' <= c && c <= 'Z') || ('0' <= c && c <= '9') || c == '_'
}

/// Whether the word `w` stands as a whole word at position `i` of `cs`.
fn word_at_position(cs: &Vec<char>, i: usize, w: &Vec<char>) -> (r: bool)
    ensures
        r == word_at(cs@, i as int, w@),
{
    if i > cs.len() || w.len() > cs.len() - i {
        return false;
    }
    let mut j: usize = 0;
    while j < w.len()
        invariant
            i + w@.len() <= cs@.len(),
            cs@.len() == cs.len(),
            j <= w@.len(),
            forall|k: int| 0 <= k < j ==> #[trigger] same_letter(cs@[i + k], w@[k]),
        decreases w@.len() - j,
    {
        let c = cs[i + j];
        let p = w[j];
        let same = c == p || ('A' <= c && c <= 'Z' && c as u32 + 32 == p as u32);
        if !same {
            assert(!same_letter(cs@[i + j as int], w@[j as int]));
            return false;
        }
        j = j + 1;
    }
    if i > 0 && word_char(cs[i - 1]) {
        return false;
    }
    if i + w.len() < cs.len() && word_char(cs[i + w.len()]) {
        return false;
    }
    true
}

/// Parses a text with `sqlparser`'s generic dialect into all the
/// statements it holds, as the parser reads it (comments included); the
/// parser's error is answered as its message. A text that may not be
/// handed to the parser (`parse_admissible`) is refused.
pub fn parse_statements(sql: &str) -> (r: Result<Vec<SqlStatement>, String>)
    ensures
        parsed_view(r) == guarded_parse(sql@),
{
    if parse_admissible_text(sql) {
        parse_sql(sql)
    } else {
        Err(String::from_str("statement is nested too deeply or uses GRANTED BY"))
    }
}

proof fn lemma_parsed_statements_stops(texts: Seq<Seq<char>>, k: int)
    requires
        0 <= k <= texts.len(),
        parsed_statements(texts.take(k)) is Err,
    ensures
        parsed_statements(texts) == parsed_statements(texts.take(k)),
    decreases texts.len() - k,
{
    if k < texts.len() {
        assert(texts.take(k + 1).drop_last() =~= texts.take(k));
        lemma_parsed_statements_stops(texts, k + 1);
    } else {
        assert(texts.take(k) =~= texts);
    }
}

/// Splits a script into statements and parses each with `sqlparser`'s
/// generic dialect; the first statement that does not parse gives the
/// error.
pub fn parse_multiple_sql_statements(sql: &str) -> (r: Result<Vec<SqlStatement>, String>)
    ensures
        parsed_view(r) == script_statements(sql@),
{
    let texts = split_statements(sql);
    let ghost tv = texts@.map_values(|t: String| t@);
    let mut statements: Vec<SqlStatement> = Vec::new();
    let mut i: usize = 0;
    proof {
        assert(tv.take(0) =~= Seq::<Seq<char>>::empty());
    }
    while i < texts.len()
        invariant
            i <= texts@.len(),
            tv == texts@.map_values(|t: String| t@),
            tv == statement_texts(sql@),
            parsed_statements(tv.take(i as int)) == Ok::<Seq<SqlStatement>, Seq<char>>(statements@),
        decreases texts@.len() - i,
    {
        proof {
            assert(tv.take(i + 1).drop_last() =~= tv.take(i as int));
            assert(tv.take(i + 1).last() == texts@[i as int]@);
        }
        let text = texts[i].as_str();
        let parsed = parse_statements(text);
        match parsed_text_statements(text, parsed) {
            Ok(more) => {
                let ghost before = statements@;
                let ghost added = more@;
                let mut more = more;
                statements.append(&mut more);
                assert(statements@ =~= before + added);
            },
            Err(e) => {
                proof {
                    lemma_parsed_statements_stops(tv, i + 1);
                }
                return Err(e);
            },
        }
        i = i + 1;
    }
    proof {
        assert(tv.take(i as int) =~= tv);
    }
    Ok(statements)
}

// ---------------------------------------------------------------------
// Running a script
// ---------------------------------------------------------------------

/// The message for a statement that fails.
pub open spec fn execution_error_message(e: ErrorModel) -> Seq<char> {
    "Execution error: "@ + error_debug_text(e)
}

/// The message for a query that cannot be evaluated: an integer result out
/// of the range of `i32`, or a `SELECT` list item without a column name.
pub open spec fn unevaluable_query_message() -> Seq<char> {
    "Execution error: the query cannot be evaluated"@
}

/// What running the statements from the `k`-th on does, after the outputs
/// so far: a query that selects rows adds their table to the outputs, a
/// query that selects none adds nothing, any other statement is executed;
/// the first statement that fails stops the script with its message.
pub open spec fn run_statements<T: StorageEngine>(
    db: DbModel,
    statements: Seq<SqlStatement>,
    k: int,
    outputs: Seq<Seq<char>>,
) -> (DbModel, Result<Seq<Seq<char>>, Seq<char>>)
    decreases statements.len() - k,
{
    if k < 0 || k >= statements.len() {
        (db, Ok(outputs))
    } else {
        match statements[k] {
            SqlStatement::Query(q) => if query_unrunnable(q) {
                (db, Err(unevaluable_query_message()))
            } else {
                match query_rows::<T>(db, q) {
                    Err(e) => (db, Err(execution_error_message(e))),
                    Ok(rows) => run_statements::<T>(
                        db,
                        statements,
                        k + 1,
                        if rows.len() > 0 {
                            outputs.push(table_text(rows, Some(query_columns::<T>(db, q, rows))))
                        } else {
                            outputs
                        },
                    ),
                }
            },
            st => {
                let (db2, r) = stmt_outcome::<T>(db, st);
                match r {
                    Err(e) => (db2, Err(execution_error_message(e))),
                    Ok(_) => run_statements::<T>(db2, statements, k + 1, outputs),
                }
            },
        }
    }
}

/// The outputs joined by newlines.
pub open spec fn joined(parts: Seq<Seq<char>>) -> Seq<char>
    decreases parts.len(),
{
    if parts.len() == 0 {
        Seq::empty()
    } else if parts.len() == 1 {
        parts[0]
    } else {
        joined(parts.drop_last()) + seq!['\n'] + parts.last()
    }
}

/// What running a script's statements does: the tables it leaves, and the
/// outputs of its queries joined by newlines or the message of the
/// statement that failed.
pub open spec fn script_outcome<T: StorageEngine>(db: DbModel, statements: Seq<SqlStatement>) -> (DbModel, Result<Seq<char>, Seq<char>>) {
    let (db2, r) = run_statements::<T>(db, statements, 0, Seq::empty());
    (db2, match r {
        Ok(outputs) => Ok(joined(outputs)),
        Err(e) => Err(e),
    })
}

/// The view of a result holding text.
pub open spec fn text_result(r: Result<String, String>) -> Result<Seq<char>, Seq<char>> {
    match r {
        Ok(s) => Ok(s@),
        Err(e) => Err(e@),
    }
}

fn execution_error(e: &ExecutionError) -> (m: String)
    ensures
        m@ == execution_error_message(e@),
{
    let mut m = String::from_str("Execution error: ");
    let d = e.debug_text();
    m.append(d.as_str());
    m
}

fn join_lines(parts: &Vec<String>) -> (s: String)
    ensures
        s@ == joined(cells_view(parts@)),
{
    let ghost pv = cells_view(parts@);
    let mut s = String::new();
    let mut i: usize = 0;
    proof {
        assert(pv.take(0) =~= Seq::<Seq<char>>::empty());
    }
    while i < parts.len()
        invariant
            i <= parts@.len(),
            pv == cells_view(parts@),
            s@ == joined(pv.take(i as int)),
        decreases parts@.len() - i,
    {
        proof {
            assert(pv.take(i + 1).drop_last() =~= pv.take(i as int));
            assert(pv.take(i + 1).last() == parts@[i as int]@);
        }
        if i > 0 {
            push_char(&mut s, '\n');
        }
        s.append(parts[i].as_str());
        proof {
            if i == 0 {
                assert(pv.take(1)[0] == parts@[0]@);
                assert(s@ =~= joined(pv.take(1)));
            } else {
                assert(s@ =~= joined(pv.take(i + 1)));
            }
        }
        i = i + 1;
    }
    proof {
        assert(pv.take(i as int) =~= pv);
    }
    s
}

/// Runs parsed statements one after another and answers the tables of
/// the queries that selected rows, joined by newlines. The first
/// statement that fails stops the run with `Execution error: <error>`;
/// a query that cannot be evaluated stops it with
/// `Execution error: the query cannot be evaluated`.
pub fn execute_statements<T: StorageEngine>(statements: Vec<SqlStatement>, storage_engine: &mut T) -> (r: Result<String, String>)
    requires
        old(storage_engine).valid(),
    ensures
        final(storage_engine).valid(),
        (final(storage_engine).db(), text_result(r)) == script_outcome::<T>(old(storage_engine).db(), statements@),
{
    let ghost all = statements@;
    let mut all_outputs: Vec<String> = Vec::new();
    proof {
        assert(cells_view(all_outputs@) =~= Seq::<Seq<char>>::empty());
    }
    for statement in it: statements.into_iter()
        invariant
            it.seq() == all,
            storage_engine.valid(),
            run_statements::<T>(storage_engine.db(), all, it.index(), cells_view(all_outputs@))
                == run_statements::<T>(old(storage_engine).db(), all, 0, Seq::empty()),
    {
        proof {
            assert(cells_view(all_outputs@).len() == all_outputs@.len());
        }
        match statement {
            SqlStatement::Query(query) => {
                if query_cannot_run(&query) {
                    return Err(String::from_str("Execution error: the query cannot be evaluated"));
                }
                match execute_query_with_columns(&query, storage_engine) {
                    Err(e) => { return Err(execution_error(&e)); },
                    Ok((rows, column_names)) => {
                        if rows.len() > 0 {
                            let query_result = QueryResult::Data(rows);
                            let output = query_result.format_as_string(Some(column_names.as_slice()));
                            let ghost prev = cells_view(all_outputs@);
                            all_outputs.push(output);
                            proof {
                                assert(cells_view(all_outputs@) =~= prev.push(output@));
                            }
                        }
                    },
                }
            },
            other => {
                match execute_stmt(other, storage_engine) {
                    Err(e) => { return Err(execution_error(&e)); },
                    Ok(_) => {},
                }
            },
        }
    }
    Ok(join_lines(&all_outputs))
}

/// Runs a script: parses its statements, then runs them in order (see
/// `execute_statements`). A script that does not parse answers the parse
/// error and changes nothing.
pub fn execute_sql_and_get_output<T: StorageEngine>(input_sql: &str, storage_engine: &mut T) -> (r: Result<String, String>)
    requires
        old(storage_engine).valid(),
    ensures
        final(storage_engine).valid(),
        match script_statements(input_sql@) {
            Err(e) => final(storage_engine).db() == old(storage_engine).db() && text_result(r) == Err::<Seq<char>, Seq<char>>(e),
            Ok(statements) => (final(storage_engine).db(), text_result(r)) == script_outcome::<T>(old(storage_engine).db(), statements),
        },
{
    let statements = parse_multiple_sql_statements(input_sql)?;
    execute_statements(statements, storage_engine)
}

/// Runs a script (`execute_sql_and_get_output`).
pub fn execute_sql<T: StorageEngine>(sql: &str, storage_engine: &mut T) -> (r: Result<String, String>)
    requires
        old(storage_engine).valid(),
    ensures
        final(storage_engine).valid(),
        match script_statements(sql@) {
            Err(e) => final(storage_engine).db() == old(storage_engine).db() && text_result(r) == Err::<Seq<char>, Seq<char>>(e),
            Ok(statements) => (final(storage_engine).db(), text_result(r)) == script_outcome::<T>(old(storage_engine).db(), statements),
        },
{
    execute_sql_and_get_output(sql, storage_engine)
}

// ---------------------------------------------------------------------
// Comparing outputs
// ---------------------------------------------------------------------

/// The text with each `\r\n` turned into `\n`, read from the left
/// (`str::replace`).
pub open spec fn crlf_to_lf(s: Seq<char>) -> Seq<char>
    decreases s.len(),
{
    if s.len() == 0 {
        Seq::empty()
    } else if s.len() >= 2 && s[0] == '\r' && s[1] == '\n' {
        seq!['\n'] + crlf_to_lf(s.subrange(2, s.len() as int))
    } else {
        seq![s[0]] + crlf_to_lf(s.drop_first())
    }
}

/// An output as it is compared with an expected one: trimmed, with `\r\n`
/// line endings turned into `\n`.
pub fn normalized_output(s: &str) -> (r: String)
    ensures
        r@ == crlf_to_lf(trimmed(s@)),
{
    let cs = text_chars(s);
    let (a, b) = trim_range(&cs, 0, cs.len());
    proof {
        assert(cs@.subrange(0, cs@.len() as int) =~= cs@);
    }
    let ghost whole = cs@.subrange(a as int, b as int);
    let mut out = String::new();
    let mut i = a;
    proof {
        assert(out@ + crlf_to_lf(cs@.subrange(i as int, b as int)) =~= crlf_to_lf(whole));
    }
    while i < b
        invariant
            a <= i <= b <= cs@.len(),
            whole == cs@.subrange(a as int, b as int),
            out@ + crlf_to_lf(cs@.subrange(i as int, b as int)) == crlf_to_lf(whole),
        decreases b - i,
    {
        let ghost rest = cs@.subrange(i as int, b as int);
        if cs[i] == '\r' && i + 1 < b && cs[i + 1] == '\n' {
            proof {
                assert(rest.subrange(2, rest.len() as int) =~= cs@.subrange(i + 2, b as int));
                assert(out@.push('\n') + crlf_to_lf(cs@.subrange(i + 2, b as int)) =~= out@ + crlf_to_lf(rest));
            }
            push_char(&mut out, '\n');
            i = i + 2;
        } else {
            proof {
                assert(rest.drop_first() =~= cs@.subrange(i + 1, b as int));
                assert(out@.push(cs@[i as int]) + crlf_to_lf(cs@.subrange(i + 1, b as int)) =~= out@ + crlf_to_lf(rest));
            }
            push_char(&mut out, cs[i]);
            i = i + 1;
        }
    }
    proof {
        assert(cs@.subrange(i as int, b as int) =~= Seq::<char>::empty());
        assert(out@ + crlf_to_lf(Seq::<char>::empty()) =~= out@);
    }
    out
}

} // verus!
