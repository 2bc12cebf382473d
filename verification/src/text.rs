//! Small text utilities shared by the storage engine and the executor:
//! decimal rendering of integers, decimal parsing, and character-level
//! string building.
use vstd::prelude::*;

verus! {

/// The ASCII digit for `d`, for `d < 10`.
pub open spec fn digit_char(d: nat) -> char {
    if d == 0 { '0' }
    else if d == 1 { '1' }
    else if d == 2 { '2' }
    else if d == 3 { '3' }
    else if d == 4 { '4' }
    else if d == 5 { '5' }
    else if d == 6 { '6' }
    else if d == 7 { '7' }
    else if d == 8 { '8' }
    else { '9' }
}

/// Decimal digits of a natural number, most significant first, no leading zeros.
pub open spec fn nat_decimal(n: nat) -> Seq<char>
    decreases n,
{
    if n < 10 {
        seq![digit_char(n)]
    } else {
        nat_decimal(n / 10).push(digit_char(n % 10))
    }
}

/// Decimal rendering of an integer, with a leading `-` for negative values.
pub open spec fn int_decimal(i: int) -> Seq<char> {
    if i < 0 {
        seq!['-'] + nat_decimal((-i) as nat)
    } else {
        nat_decimal(i as nat)
    }
}

/// Appends one character to a string (`String::push`).
#[verifier::external_body]
pub(crate) fn push_char(s: &mut String, c: char)
    ensures
        final(s)@ == old(s)@.push(c),
{
    s.push(c);
}

/// The characters of a text.
pub(crate) fn text_chars(s: &str) -> (cs: Vec<char>)
    ensures
        cs@ == s@,
{
    let mut cs: Vec<char> = Vec::new();
    for c in it: s.chars()
        invariant
            cs@ == it.seq().take(it.index()),
    {
        cs.push(c);
    }
    cs
}

/// `a` comes before `b` from position `i` on, as `str`'s `<` orders
/// texts: at the first position where they differ, by the characters'
/// code points; a text before every longer text that it begins.
pub open spec fn text_less_from(a: Seq<char>, b: Seq<char>, i: int) -> bool
    decreases a.len() - i,
{
    if i >= a.len() {
        i < b.len()
    } else if i >= b.len() {
        false
    } else if a[i] != b[i] {
        (a[i] as u32) < (b[i] as u32)
    } else {
        text_less_from(a, b, i + 1)
    }
}

/// `a` comes before `b` as `str`'s `<` orders texts.
pub open spec fn text_less(a: Seq<char>, b: Seq<char>) -> bool {
    text_less_from(a, b, 0)
}

/// Whether `a` comes before `b` (`<` on `str`).
pub(crate) fn str_less(a: &str, b: &str) -> (r: bool)
    ensures
        r == text_less(a@, b@),
{
    let x = text_chars(a);
    let y = text_chars(b);
    let mut i: usize = 0;
    while i < x.len() && i < y.len()
        invariant
            x@ == a@,
            y@ == b@,
            i <= x@.len(),
            i <= y@.len(),
            text_less_from(a@, b@, 0) == text_less_from(a@, b@, i as int),
        decreases x@.len() - i,
    {
        if x[i] != y[i] {
            return (x[i] as u32) < (y[i] as u32);
        }
        i = i + 1;
    }
    i < y.len()
}

/// Whether two string slices hold the same characters.
pub(crate) fn str_equal(a: &str, b: &str) -> (r: bool)
    ensures
        r == (a@ == b@),
{
    let x = text_chars(a);
    let y = text_chars(b);
    if x.len() != y.len() {
        return false;
    }
    let mut i: usize = 0;
    while i < x.len()
        invariant
            x@ == a@,
            y@ == b@,
            x@.len() == y@.len(),
            i <= x@.len(),
            forall|k: int| 0 <= k < i ==> x@[k] == y@[k],
        decreases x@.len() - i,
    {
        if x[i] != y[i] {
            return false;
        }
        i = i + 1;
    }
    assert(x@ =~= y@);
    true
}

fn digit(d: u64) -> (c: char)
    requires
        d < 10,
    ensures
        c == digit_char(d as nat),
{
    if d == 0 { '0' }
    else if d == 1 { '1' }
    else if d == 2 { '2' }
    else if d == 3 { '3' }
    else if d == 4 { '4' }
    else if d == 5 { '5' }
    else if d == 6 { '6' }
    else if d == 7 { '7' }
    else if d == 8 { '8' }
    else { '9' }
}

/// Appends the decimal digits of `n`.
pub fn push_decimal(s: &mut String, n: u64)
    ensures
        final(s)@ == old(s)@ + nat_decimal(n as nat),
    decreases n,
{
    if n >= 10 {
        push_decimal(s, n / 10);
        push_char(s, digit(n % 10));
        assert(final(s)@ =~= old(s)@ + nat_decimal(n as nat));
    } else {
        push_char(s, digit(n));
        assert(final(s)@ =~= old(s)@ + nat_decimal(n as nat));
    }
}

/// The decimal digits of a number end with its last digit, after those of
/// the number without it.
proof fn lemma_nat_decimal_last(n: nat)
    ensures
        nat_decimal(n).len() >= 1,
        nat_decimal(n).last() == digit_char(n % 10),
        n < 10 ==> nat_decimal(n).drop_last() == Seq::<char>::empty(),
        n >= 10 ==> nat_decimal(n).drop_last() == nat_decimal(n / 10),
{
    if n < 10 {
        assert(nat_decimal(n).drop_last() =~= Seq::<char>::empty());
    } else {
        assert(nat_decimal(n).drop_last() =~= nat_decimal(n / 10));
    }
}

/// The digit after `c`, the digit of `k`.
fn next_digit(c: char, Ghost(k): Ghost<nat>) -> (r: char)
    requires
        k < 9,
        c == digit_char(k),
    ensures
        r == digit_char(k + 1),
{
    if c == '0' { '1' }
    else if c == '1' { '2' }
    else if c == '2' { '3' }
    else if c == '3' { '4' }
    else if c == '4' { '5' }
    else if c == '5' { '6' }
    else if c == '6' { '7' }
    else if c == '7' { '8' }
    else { '9' }
}

/// The first `k` characters of `d`.
fn chars_prefix(d: &Vec<char>, k: usize) -> (r: Vec<char>)
    requires
        k <= d@.len(),
    ensures
        r@ == d@.subrange(0, k as int),
{
    let mut r: Vec<char> = Vec::new();
    let mut i: usize = 0;
    while i < k
        invariant
            i <= k <= d@.len(),
            r@ == d@.subrange(0, i as int),
        decreases k - i,
    {
        r.push(d[i]);
        i = i + 1;
        assert(r@ =~= d@.subrange(0, i as int));
    }
    r
}

/// The decimal digits of `n + 1`, from those of `n`.
pub(crate) fn next_decimal(d: &Vec<char>, Ghost(n): Ghost<nat>) -> (r: Vec<char>)
    requires
        d@ == nat_decimal(n),
    ensures
        r@ == nat_decimal(n + 1),
    decreases n,
{
    proof {
        lemma_nat_decimal_last(n);
        lemma_nat_decimal_last(n + 1);
    }
    let len = d.len();
    let last = d[len - 1];
    let mut r = chars_prefix(d, len - 1);
    assert(r@ == nat_decimal(n).drop_last());
    if last != '9' {
        assert(n % 10 < 9);
        assert((n + 1) % 10 == n % 10 + 1);
        assert((n + 1) / 10 == n / 10);
        let c = next_digit(last, Ghost(n % 10));
        r.push(c);
        assert(r@ =~= nat_decimal(n + 1));
        r
    } else if len == 1 {
        assert(n == 9);
        assert(nat_decimal(10) =~= nat_decimal(1).push('0'));
        let mut t: Vec<char> = Vec::new();
        t.push('1');
        t.push('0');
        assert(t@ =~= nat_decimal(n + 1));
        t
    } else {
        assert(n % 10 == 9);
        assert(n >= 10);
        assert((n + 1) % 10 == 0);
        assert((n + 1) / 10 == n / 10 + 1);
        let mut t = next_decimal(&r, Ghost(n / 10));
        t.push('0');
        assert(t@ =~= nat_decimal(n + 1));
        t
    }
}

/// Appends the characters of `d`.
pub(crate) fn push_chars(s: &mut String, d: &Vec<char>)
    ensures
        final(s)@ == old(s)@ + d@,
{
    let mut i: usize = 0;
    while i < d.len()
        invariant
            i <= d@.len(),
            s@ == old(s)@ + d@.subrange(0, i as int),
        decreases d@.len() - i,
    {
        push_char(s, d[i]);
        i = i + 1;
        assert(s@ =~= old(s)@ + d@.subrange(0, i as int));
    }
    assert(d@.subrange(0, i as int) =~= d@);
}

/// Appends the decimal rendering of `v` (as `i32::to_string` writes it).
pub fn push_i32(s: &mut String, v: i32)
    ensures
        final(s)@ == old(s)@ + int_decimal(v as int),
{
    if v < 0 {
        push_char(s, '-');
        let m: i64 = -(v as i64);
        push_decimal(s, m as u64);
        assert(final(s)@ =~= old(s)@ + int_decimal(v as int));
    } else {
        push_decimal(s, v as u64);
    }
}

/// The decimal rendering of `v`.
pub fn i32_to_string(v: i32) -> (s: String)
    ensures
        s@ == int_decimal(v as int),
{
    let mut s = String::new();
    push_i32(&mut s, v);
    assert(s@ =~= int_decimal(v as int));
    s
}

/// The value of an ASCII digit.
pub open spec fn char_digit(c: char) -> int {
    c as int - '0' as int
}

pub open spec fn is_digit(c: char) -> bool {
    '0' <= c <= '9'
}

/// The value of a string of decimal digits.
pub open spec fn digits_value(s: Seq<char>) -> int
    decreases s.len(),
{
    if s.len() == 0 {
        0
    } else {
        digits_value(s.drop_last()) * 10 + char_digit(s.last())
    }
}

/// The string without its leading sign, if it has one.
pub open spec fn unsigned_part(s: Seq<char>) -> Seq<char> {
    if s.len() > 0 && (s[0] == '-' || s[0] == '+') { s.drop_first() } else { s }
}

/// Every character is an ASCII digit.
pub open spec fn all_digits(s: Seq<char>) -> bool {
    forall|i: int| 0 <= i < s.len() ==> is_digit(#[trigger] s[i])
}

/// How `i32::from_str` reads a string: an optional `+` or `-`, then one or
/// more ASCII digits, the value within the range of `i32`.
pub open spec fn parse_i32_spec(s: Seq<char>) -> Option<i32> {
    let negative = s.len() > 0 && s[0] == '-';
    let body = unsigned_part(s);
    if body.len() == 0 || !all_digits(body) {
        None
    } else {
        let v = if negative { -digits_value(body) } else { digits_value(body) };
        if i32::MIN <= v <= i32::MAX { Some(v as i32) } else { None }
    }
}

proof fn lemma_digits_value_grows(s: Seq<char>, k: int)
    requires
        0 <= k <= s.len(),
        forall|i: int| 0 <= i < s.len() ==> is_digit(#[trigger] s[i]),
    ensures
        0 <= digits_value(s.take(k)) <= digits_value(s),
    decreases s.len(),
{
    if k == s.len() {
        assert(s.take(k) =~= s);
        lemma_digits_value_nonneg(s);
    } else {
        let t = s.drop_last();
        assert forall|i: int| 0 <= i < t.len() implies is_digit(#[trigger] t[i]) by {
            assert(t[i] == s[i]);
        }
        lemma_digits_value_grows(t, k);
        assert(t.take(k) =~= s.take(k));
        lemma_digits_value_nonneg(t);
        assert(is_digit(s[s.len() - 1]));
    }
}

proof fn lemma_digits_value_nonneg(s: Seq<char>)
    requires
        forall|i: int| 0 <= i < s.len() ==> is_digit(#[trigger] s[i]),
    ensures
        digits_value(s) >= 0,
    decreases s.len(),
{
    if s.len() > 0 {
        let t = s.drop_last();
        assert forall|i: int| 0 <= i < t.len() implies is_digit(#[trigger] t[i]) by {
            assert(t[i] == s[i]);
        }
        lemma_digits_value_nonneg(t);
        assert(is_digit(s[s.len() - 1]));
    }
}

/// Reads a decimal `i32` as `i32::from_str` does.
pub fn parse_i32(s: &str) -> (r: Option<i32>)
    ensures
        r == parse_i32_spec(s@),
{
    let n = s.unicode_len();
    let mut start: usize = 0;
    let mut negative = false;
    if n > 0 {
        let c = s.get_char(0);
        if c == '-' {
            negative = true;
            start = 1;
        } else if c == '+' {
            start = 1;
        }
    }
    let ghost body = unsigned_part(s@);
    assert(body =~= s@.subrange(start as int, n as int));
    if start == n {
        return None;
    }
    let mut acc: i64 = 0;
    let mut i: usize = start;
    while i < n
        invariant
            n == s@.len(),
            start <= i <= n,
            body == s@.subrange(start as int, n as int),
            body == unsigned_part(s@),
            negative == (s@.len() > 0 && s@[0] == '-'),
            forall|j: int| 0 <= j < i - start ==> is_digit(#[trigger] body[j]),
            acc == digits_value(body.take(i - start)),
            0 <= acc <= 2147483648,
        decreases n - i,
    {
        let c = s.get_char(i);
        if !('0' <= c && c <= '9') {
            assert(!is_digit(body[i - start]));
            return None;
        }
        let d: i64 = (c as u32 - '0' as u32) as i64;
        proof {
            assert(body[i - start] == c);
            assert(body.take(i - start + 1).drop_last() =~= body.take(i - start));
            assert(body.take(i - start + 1).last() == c);
        }
        acc = acc * 10 + d;
        i = i + 1;
        if acc > 2147483648 {
            proof {
                assert(forall|j: int| 0 <= j < i - start ==> is_digit(#[trigger] body[j]));
                if all_digits(body) {
                    lemma_digits_value_grows(body, i - start);
                }
            }
            return None;
        }
    }
    assert(body.take(n - start) =~= body);
    if negative {
        Some((-acc) as i32)
    } else if acc <= 2147483647 {
        Some(acc as i32)
    } else {
        None
    }
}

} // verus!
