use vstd::prelude::*;

use crate::dynamic_arrays::min_int;
use crate::model::{Model, is_error, is_number, is_text};
use crate::number::{
    Number, SCALE, number_text, spec_floor_i32, spec_floor_i64, spec_floor_u32, spec_floor_usize,
};
use crate::strings::{
    alphabetic, alphanumeric, char_from_u32, char_lower, char_upper, chars_of, is_alphabetic,
    is_alphanumeric, lower_chars, lowercase, scalar_value, string_of, to_lowercase, to_uppercase,
    upper_chars, uppercase,
};
use crate::textutil::{
    find_from, find_from_exec, join, lemma_find_from, nth_back, nth_back_exec, nth_from, nth_from_exec, pieces_view,
    slice_chars, split, split_chars,
};
use crate::values::{CalcResult, Cell, ErrorKind, error_text};
use crate::wildcard::{first_match_exec, first_match_from, wild_tokens, wild_tokens_exec};

verus! {

pub open spec fn true_text() -> Seq<char> {
    seq!['T', 'R', 'U', 'E']
}

pub open spec fn false_text() -> Seq<char> {
    seq!['F', 'A', 'L', 'S', 'E']
}

/// How a boolean reads as text.
pub open spec fn bool_text(b: bool) -> Seq<char> {
    if b {
        true_text()
    } else {
        false_text()
    }
}

/// The characters of `TRUE` or `FALSE`.
pub fn bool_chars(b: bool) -> (r: Vec<char>)
    ensures
        r@ == bool_text(b),
{
    let mut r: Vec<char> = Vec::new();
    if b {
        r.push('T');
        r.push('R');
        r.push('U');
        r.push('E');
        assert(r@ =~= true_text());
    } else {
        r.push('F');
        r.push('A');
        r.push('L');
        r.push('S');
        r.push('E');
        assert(r@ =~= false_text());
    }
    r
}

/// The text a value reads as in a text function: a number as its general
/// text, a boolean as `TRUE` or `FALSE`, an empty cell or argument as the
/// empty text; an error stays that error, a lambda is `#VALUE!` and a range
/// or array (which would need implicit intersection) is `#N/IMPL!`.
pub open spec fn text_value(c: CalcResult) -> Result<Seq<char>, ErrorKind> {
    match c {
        CalcResult::Number(n) => Ok(number_text(n)),
        CalcResult::Text(s) => Ok(s@),
        CalcResult::Boolean(b) => Ok(bool_text(b)),
        CalcResult::Error(e) => Err(e),
        CalcResult::EmptyCell => Ok(seq![]),
        CalcResult::EmptyArg => Ok(seq![]),
        CalcResult::Lambda => Err(ErrorKind::Value),
        _ => Err(ErrorKind::Nimpl),
    }
}

pub open spec fn chars_result(r: Result<Vec<char>, ErrorKind>) -> Result<Seq<char>, ErrorKind> {
    match r {
        Ok(v) => Ok(v@),
        Err(e) => Err(e),
    }
}

/// The text a value reads as (see `text_value`).
pub fn text_argument(c: &CalcResult) -> (r: Result<Vec<char>, ErrorKind>)
    ensures
        chars_result(r) == text_value(*c),
{
    match c {
        CalcResult::Number(n) => Ok(n.to_chars()),
        CalcResult::Text(s) => Ok(chars_of(s.as_str())),
        CalcResult::Boolean(b) => Ok(bool_chars(*b)),
        CalcResult::Error(e) => Err(*e),
        CalcResult::EmptyCell => {
            let v: Vec<char> = Vec::new();
            Ok(v)
        },
        CalcResult::EmptyArg => {
            let v: Vec<char> = Vec::new();
            Ok(v)
        },
        CalcResult::Lambda => Err(ErrorKind::Value),
        _ => Err(ErrorKind::Nimpl),
    }
}

/// A character count as LEFT, RIGHT and MID read it: a number that is not
/// negative, floored; an empty value counts zero. Other values are
/// `#VALUE!`, ranges and arrays `#N/IMPL!`, and an error stays the error.
pub open spec fn count_value(c: CalcResult) -> Result<int, ErrorKind> {
    match c {
        CalcResult::Number(v) => if v.scaled < 0 {
            Err(ErrorKind::Value)
        } else {
            Ok(spec_floor_usize(v))
        },
        CalcResult::Text(_) => Err(ErrorKind::Value),
        CalcResult::Boolean(_) => Err(ErrorKind::Value),
        CalcResult::Error(e) => Err(e),
        CalcResult::EmptyCell => Ok(0),
        CalcResult::EmptyArg => Ok(0),
        CalcResult::Lambda => Err(ErrorKind::Value),
        _ => Err(ErrorKind::Nimpl),
    }
}

pub open spec fn count_result(r: Result<usize, ErrorKind>) -> Result<int, ErrorKind> {
    match r {
        Ok(n) => Ok(n as int),
        Err(e) => Err(e),
    }
}

fn count_argument(c: &CalcResult) -> (r: Result<usize, ErrorKind>)
    ensures
        count_result(r) == count_value(*c),
{
    match c {
        CalcResult::Number(v) => if v.scaled < 0 {
            Err(ErrorKind::Value)
        } else {
            Ok(v.floor_usize())
        },
        CalcResult::Text(_) => Err(ErrorKind::Value),
        CalcResult::Boolean(_) => Err(ErrorKind::Value),
        CalcResult::Error(e) => Err(*e),
        CalcResult::EmptyCell => Ok(0),
        CalcResult::EmptyArg => Ok(0),
        CalcResult::Lambda => Err(ErrorKind::Value),
        _ => Err(ErrorKind::Nimpl),
    }
}

/// The start position of MID: a number of at least one, floored; an error
/// stays the error, a range is `#N/IMPL!`, anything else `#VALUE!`.
pub open spec fn start_value(c: CalcResult) -> Result<int, ErrorKind> {
    match c {
        CalcResult::Number(v) => if v.scaled < SCALE {
            Err(ErrorKind::Value)
        } else {
            Ok(spec_floor_usize(v))
        },
        CalcResult::Error(e) => Err(e),
        CalcResult::Range(_) => Err(ErrorKind::Nimpl),
        _ => Err(ErrorKind::Value),
    }
}

fn start_argument(c: &CalcResult) -> (r: Result<usize, ErrorKind>)
    ensures
        count_result(r) == start_value(*c),
{
    match c {
        CalcResult::Number(v) => if v.scaled < SCALE {
            Err(ErrorKind::Value)
        } else {
            Ok(v.floor_usize())
        },
        CalcResult::Error(e) => Err(*e),
        CalcResult::Range(_) => Err(ErrorKind::Nimpl),
        _ => Err(ErrorKind::Value),
    }
}

/// The first `n` characters of `s` (all of them when it is shorter).
pub open spec fn left_chars(s: Seq<char>, n: int) -> Seq<char> {
    s.take(min_int(n, s.len() as int))
}

/// The last `n` characters of `s` (all of them when it is shorter).
pub open spec fn right_chars(s: Seq<char>, n: int) -> Seq<char> {
    s.skip(s.len() - min_int(n, s.len() as int))
}

/// Up to `n` characters of `s` from the one-based position `start` on.
pub open spec fn mid_chars(s: Seq<char>, start: int, n: int) -> Seq<char> {
    s.subrange(min_int(start - 1, s.len() as int), min_int(start - 1 + n, s.len() as int))
}

/// A character in Unicode's White_Space property, which `char::is_whitespace`
/// and `str::trim` go by.
pub open spec fn white_space(c: char) -> bool {
    let u = c as u32;
    (0x9 <= u <= 0xD) || u == 0x20 || u == 0x85 || u == 0xA0 || u == 0x1680 || (0x2000 <= u
        <= 0x200A) || u == 0x2028 || u == 0x2029 || u == 0x202F || u == 0x205F || u == 0x3000
}

fn is_white_space(c: char) -> (b: bool)
    ensures
        b == white_space(c),
{
    let u = c as u32;
    (0x9 <= u && u <= 0xD) || u == 0x20 || u == 0x85 || u == 0xA0 || u == 0x1680 || (0x2000 <= u
        && u <= 0x200A) || u == 0x2028 || u == 0x2029 || u == 0x202F || u == 0x205F || u == 0x3000
}

/// The position of the first character at or after `i` that is not white space.
pub open spec fn lead(s: Seq<char>, i: int) -> int
    decreases s.len() - i,
{
    if 0 <= i < s.len() && white_space(s[i]) {
        lead(s, i + 1)
    } else {
        i
    }
}

/// The end of `s.take(j)` once its trailing white space is cut.
pub open spec fn trail(s: Seq<char>, j: int) -> int
    decreases j,
{
    if 0 < j <= s.len() && white_space(s[j - 1]) {
        trail(s, j - 1)
    } else {
        j
    }
}

/// `s` without leading and trailing white space (`str::trim`).
pub open spec fn trimmed(s: Seq<char>) -> Seq<char> {
    let a = lead(s, 0);
    let b = trail(s, s.len() as int);
    if a < b {
        s.subrange(a, b)
    } else {
        seq![]
    }
}

proof fn lemma_lead_bounds(s: Seq<char>, i: int)
    requires
        0 <= i <= s.len(),
    ensures
        i <= lead(s, i) <= s.len(),
    decreases s.len() - i,
{
    if i < s.len() && white_space(s[i]) {
        lemma_lead_bounds(s, i + 1);
    }
}

proof fn lemma_trail_bounds(s: Seq<char>, j: int)
    requires
        0 <= j <= s.len(),
    ensures
        0 <= trail(s, j) <= j,
    decreases j,
{
    if 0 < j && white_space(s[j - 1]) {
        lemma_trail_bounds(s, j - 1);
    }
}

fn trim_chars(s: &Vec<char>) -> (r: Vec<char>)
    ensures
        r@ == trimmed(s@),
{
    let mut a: usize = 0;
    while a < s.len() && is_white_space(s[a])
        invariant
            a <= s.len(),
            lead(s@, 0) == lead(s@, a as int),
        decreases s.len() - a,
    {
        a += 1;
    }
    let mut b: usize = s.len();
    while b > 0 && is_white_space(s[b - 1])
        invariant
            b <= s.len(),
            trail(s@, s.len() as int) == trail(s@, b as int),
        decreases b,
    {
        b -= 1;
    }
    if a < b {
        slice_chars(s, a, b)
    } else {
        let v: Vec<char> = Vec::new();
        assert(v@ =~= seq![]);
        v
    }
}

impl Model {
    /// LEN(text): the number of characters of the value's text.
    pub fn fn_len(&self, value: &CalcResult) -> (r: CalcResult)
        ensures
            match text_value(*value) {
                Err(e) => is_error(r, e),
                Ok(s) => is_number(r, s.len() * SCALE),
            },
    {
        match text_argument(value) {
            Err(e) => CalcResult::Error(e),
            Ok(s) => CalcResult::Number(Number::from_count(s.len())),
        }
    }

    /// TRIM(text): the value's text without leading or trailing white space.
    pub fn fn_trim(&self, value: &CalcResult) -> (r: CalcResult)
        ensures
            match text_value(*value) {
                Err(e) => is_error(r, e),
                Ok(s) => is_text(r, trimmed(s)),
            },
    {
        match text_argument(value) {
            Err(e) => CalcResult::Error(e),
            Ok(s) => CalcResult::Text(string_of(&trim_chars(&s))),
        }
    }

    /// LOWER(text): the value's text in lower case (`str::to_lowercase`).
    pub fn fn_lower(&self, value: &CalcResult) -> (r: CalcResult)
        ensures
            match text_value(*value) {
                Err(e) => is_error(r, e),
                Ok(s) => is_text(r, lowercase(s)),
            },
    {
        match text_argument(value) {
            Err(e) => CalcResult::Error(e),
            Ok(s) => {
                let t = string_of(&s);
                CalcResult::Text(to_lowercase(t.as_str()))
            },
        }
    }

    /// UPPER(text): the value's text in upper case (`str::to_uppercase`).
    pub fn fn_upper(&self, value: &CalcResult) -> (r: CalcResult)
        ensures
            match text_value(*value) {
                Err(e) => is_error(r, e),
                Ok(s) => is_text(r, uppercase(s)),
            },
    {
        match text_argument(value) {
            Err(e) => CalcResult::Error(e),
            Ok(s) => {
                let t = string_of(&s);
                CalcResult::Text(to_uppercase(t.as_str()))
            },
        }
    }

    /// UNICODE(text): the code point of the first character of the value's
    /// text; an empty value or text is `#VALUE!`.
    pub fn fn_unicode(&self, value: &CalcResult) -> (r: CalcResult)
        ensures
            match *value {
                CalcResult::EmptyCell => is_error(r, ErrorKind::Value),
                CalcResult::EmptyArg => is_error(r, ErrorKind::Value),
                _ => match text_value(*value) {
                    Err(e) => is_error(r, e),
                    Ok(s) => if s.len() == 0 {
                        is_error(r, ErrorKind::Value)
                    } else {
                        is_number(r, (s[0] as u32) * SCALE)
                    },
                },
            },
    {
        match value {
            CalcResult::EmptyCell => {
                return CalcResult::Error(ErrorKind::Value);
            },
            CalcResult::EmptyArg => {
                return CalcResult::Error(ErrorKind::Value);
            },
            _ => {},
        }
        match text_argument(value) {
            Err(e) => CalcResult::Error(e),
            Ok(s) => if s.len() == 0 {
                CalcResult::Error(ErrorKind::Value)
            } else {
                let code = s[0] as u32;
                CalcResult::Number(Number::from_int(code as i64))
            },
        }
    }

    /// LEFT(text, [num_chars]): the first `num_chars` characters (one by
    /// default) of the value's text.
    pub fn fn_left(&self, value: &CalcResult, num_chars: Option<CalcResult>) -> (r: CalcResult)
        ensures
            match text_value(*value) {
                Err(e) => is_error(r, e),
                Ok(s) => match num_chars {
                    None => is_text(r, left_chars(s, 1)),
                    Some(c) => match count_value(c) {
                        Err(e) => is_error(r, e),
                        Ok(n) => is_text(r, left_chars(s, n)),
                    },
                },
            },
    {
        let s = match text_argument(value) {
            Err(e) => return CalcResult::Error(e),
            Ok(s) => s,
        };
        let n: usize = match &num_chars {
            None => 1,
            Some(c) => match count_argument(c) {
                Err(e) => return CalcResult::Error(e),
                Ok(n) => n,
            },
        };
        let end = if n < s.len() {
            n
        } else {
            s.len()
        };
        let out = slice_chars(&s, 0, end);
        CalcResult::Text(string_of(&out))
    }

    /// RIGHT(text, [num_chars]): the last `num_chars` characters (one by
    /// default) of the value's text.
    pub fn fn_right(&self, value: &CalcResult, num_chars: Option<CalcResult>) -> (r: CalcResult)
        ensures
            match text_value(*value) {
                Err(e) => is_error(r, e),
                Ok(s) => match num_chars {
                    None => is_text(r, right_chars(s, 1)),
                    Some(c) => match count_value(c) {
                        Err(e) => is_error(r, e),
                        Ok(n) => is_text(r, right_chars(s, n)),
                    },
                },
            },
    {
        let s = match text_argument(value) {
            Err(e) => return CalcResult::Error(e),
            Ok(s) => s,
        };
        let n: usize = match &num_chars {
            None => 1,
            Some(c) => match count_argument(c) {
                Err(e) => return CalcResult::Error(e),
                Ok(n) => n,
            },
        };
        let take = if n < s.len() {
            n
        } else {
            s.len()
        };
        let out = slice_chars(&s, s.len() - take, s.len());
        CalcResult::Text(string_of(&out))
    }

    /// MID(text, start_num, num_chars): up to `num_chars` characters of the
    /// value's text from the one-based position `start_num` on.
    pub fn fn_mid(&self, value: &CalcResult, start_num: &CalcResult, num_chars: &CalcResult) -> (r: CalcResult)
        ensures
            match text_value(*value) {
                Err(e) => is_error(r, e),
                Ok(s) => match start_value(*start_num) {
                    Err(e) => is_error(r, e),
                    Ok(st) => match count_value(*num_chars) {
                        Err(e) => is_error(r, e),
                        Ok(n) => is_text(r, mid_chars(s, st, n)),
                    },
                },
            },
    {
        let s = match text_argument(value) {
            Err(e) => return CalcResult::Error(e),
            Ok(s) => s,
        };
        let st = match start_argument(start_num) {
            Err(e) => return CalcResult::Error(e),
            Ok(v) => v,
        };
        let n = match count_argument(num_chars) {
            Err(e) => return CalcResult::Error(e),
            Ok(v) => v,
        };
        let a = if st - 1 < s.len() {
            st - 1
        } else {
            s.len()
        };
        let b = if n < s.len() - a {
            a + n
        } else {
            s.len()
        };
        let out = slice_chars(&s, a, b);
        CalcResult::Text(string_of(&out))
    }
}


/// Appends the characters of `v` to `out`.
pub fn extend_chars(out: &mut Vec<char>, v: &Vec<char>)
    ensures
        final(out)@ == old(out)@ + v@,
{
    let ghost start = out@;
    let mut i: usize = 0;
    while i < v.len()
        invariant
            i <= v.len(),
            out@ == start + v@.take(i as int),
        decreases v.len() - i,
    {
        out.push(v[i]);
        assert(v@.take(i as int + 1) =~= v@.take(i as int).push(v@[i as int]));
        assert(out@ =~= start + v@.take(i as int + 1));
        i += 1;
    }
    assert(v@.take(v.len() as int) =~= v@);
}

/// Two texts one after the other, or the first error among them.
pub open spec fn join_result(a: Result<Seq<char>, ErrorKind>, b: Result<Seq<char>, ErrorKind>) -> Result<Seq<char>, ErrorKind> {
    match a {
        Err(e) => Err(e),
        Ok(t) => match b {
            Err(e) => Err(e),
            Ok(u) => Ok(t + u),
        },
    }
}

/// What a cell of a range adds to CONCAT: its text, nothing for an empty
/// cell or a nested range; an error stops with that error, an array is
/// `#N/IMPL!` and a lambda `#VALUE!`.
pub open spec fn cell_text(c: Cell) -> Result<Seq<char>, ErrorKind> {
    match c {
        Cell::Number(n) => Ok(number_text(n)),
        Cell::Text(s) => Ok(s@),
        Cell::Boolean(b) => Ok(bool_text(b)),
        Cell::Error(e) => Err(e),
        Cell::Array => Err(ErrorKind::Nimpl),
        Cell::Lambda => Err(ErrorKind::Value),
        _ => Ok(seq![]),
    }
}

/// The first `n` cells of a row, joined as CONCAT joins them.
pub open spec fn cells_text(cells: Seq<Cell>, n: int) -> Result<Seq<char>, ErrorKind>
    decreases n,
{
    if n <= 0 {
        Ok(seq![])
    } else {
        join_result(cells_text(cells, n - 1), cell_text(cells[n - 1]))
    }
}

/// The first `n` rows of a range, joined as CONCAT joins them.
pub open spec fn rows_text(rows: Seq<Vec<Cell>>, n: int) -> Result<Seq<char>, ErrorKind>
    decreases n,
{
    if n <= 0 {
        Ok(seq![])
    } else {
        join_result(rows_text(rows, n - 1), cells_text(rows[n - 1]@, rows[n - 1]@.len() as int))
    }
}

/// What an argument adds to CONCAT: its text (nothing when empty), the
/// cells of a range row by row; an error stops with that error, an array is
/// `#N/IMPL!` and a lambda `#VALUE!`.
pub open spec fn concat_piece(c: CalcResult) -> Result<Seq<char>, ErrorKind> {
    match c {
        CalcResult::Range(rows) => rows_text(rows@, rows@.len() as int),
        CalcResult::Array(_) => Err(ErrorKind::Nimpl),
        _ => text_value(c),
    }
}

/// The first `n` arguments joined as CONCAT joins them.
pub open spec fn concat_all(args: Seq<CalcResult>, n: int) -> Result<Seq<char>, ErrorKind>
    decreases n,
{
    if n <= 0 {
        Ok(seq![])
    } else {
        join_result(concat_all(args, n - 1), concat_piece(args[n - 1]))
    }
}

proof fn lemma_cells_text_err(cells: Seq<Cell>, n: int, m: int, e: ErrorKind)
    requires
        0 <= n <= m,
        cells_text(cells, n) == Err::<Seq<char>, ErrorKind>(e),
    ensures
        cells_text(cells, m) == Err::<Seq<char>, ErrorKind>(e),
    decreases m - n,
{
    if m > n {
        lemma_cells_text_err(cells, n, m - 1, e);
    }
}

proof fn lemma_rows_text_err(rows: Seq<Vec<Cell>>, n: int, m: int, e: ErrorKind)
    requires
        0 <= n <= m,
        rows_text(rows, n) == Err::<Seq<char>, ErrorKind>(e),
    ensures
        rows_text(rows, m) == Err::<Seq<char>, ErrorKind>(e),
    decreases m - n,
{
    if m > n {
        lemma_rows_text_err(rows, n, m - 1, e);
    }
}

proof fn lemma_concat_all_err(args: Seq<CalcResult>, n: int, m: int, e: ErrorKind)
    requires
        0 <= n <= m,
        concat_all(args, n) == Err::<Seq<char>, ErrorKind>(e),
    ensures
        concat_all(args, m) == Err::<Seq<char>, ErrorKind>(e),
    decreases m - n,
{
    if m > n {
        lemma_concat_all_err(args, n, m - 1, e);
    }
}

fn cell_chars(c: &Cell) -> (r: Result<Vec<char>, ErrorKind>)
    ensures
        chars_result(r) == cell_text(*c),
{
    match c {
        Cell::Number(n) => Ok(n.to_chars()),
        Cell::Text(s) => Ok(chars_of(s.as_str())),
        Cell::Boolean(b) => Ok(bool_chars(*b)),
        Cell::Error(e) => Err(*e),
        Cell::Array => Err(ErrorKind::Nimpl),
        Cell::Lambda => Err(ErrorKind::Value),
        _ => {
            let v: Vec<char> = Vec::new();
            Ok(v)
        },
    }
}

fn range_chars(rows: &Vec<Vec<Cell>>) -> (r: Result<Vec<char>, ErrorKind>)
    ensures
        chars_result(r) == rows_text(rows@, rows@.len() as int),
{
    let mut out: Vec<char> = Vec::new();
    let mut i: usize = 0;
    while i < rows.len()
        invariant
            i <= rows.len(),
            rows_text(rows@, i as int) == Ok::<Seq<char>, ErrorKind>(out@),
        decreases rows.len() - i,
    {
        let row = &rows[i];
        let ghost before = out@;
        assert(out@.skip(before.len() as int) =~= Seq::<char>::empty());
        let mut j: usize = 0;
        while j < row.len()
            invariant
                j <= row.len(),
                i < rows.len(),
                *row == rows@[i as int],
                rows_text(rows@, i as int) == Ok::<Seq<char>, ErrorKind>(before),
                cells_text(row@, j as int) == Ok::<Seq<char>, ErrorKind>(out@.skip(before.len() as int)),
                out@.take(before.len() as int) == before,
                out@.len() >= before.len(),
            decreases row.len() - j,
        {
            match cell_chars(&row[j]) {
                Err(e) => {
                    proof {
                        lemma_cells_text_err(row@, j as int + 1, row@.len() as int, e);
                        lemma_rows_text_err(rows@, i as int + 1, rows@.len() as int, e);
                    }
                    return Err(e);
                },
                Ok(v) => {
                    let ghost prev = out@;
                    extend_chars(&mut out, &v);
                    assert(out@.skip(before.len() as int) =~= prev.skip(before.len() as int) + v@);
                    assert(out@.take(before.len() as int) =~= prev.take(before.len() as int));
                },
            }
            j += 1;
        }
        assert(out@ =~= before + out@.skip(before.len() as int));
        i += 1;
    }
    Ok(out)
}

impl Model {
    /// CONCAT(text1, ...): the texts of the arguments one after another
    /// (see `concat_piece`), or the first error met.
    pub fn fn_concat(&self, args: &Vec<CalcResult>) -> (r: CalcResult)
        ensures
            match concat_all(args@, args@.len() as int) {
                Err(e) => is_error(r, e),
                Ok(t) => is_text(r, t),
            },
    {
        let mut out: Vec<char> = Vec::new();
        let mut i: usize = 0;
        while i < args.len()
            invariant
                i <= args.len(),
                concat_all(args@, i as int) == Ok::<Seq<char>, ErrorKind>(out@),
            decreases args.len() - i,
        {
            let piece = match &args[i] {
                CalcResult::Range(rows) => range_chars(rows),
                CalcResult::Array(_) => Err(ErrorKind::Nimpl),
                other => text_argument(other),
            };
            match piece {
                Err(e) => {
                    proof {
                        lemma_concat_all_err(args@, i as int + 1, args@.len() as int, e);
                    }
                    return CalcResult::Error(e);
                },
                Ok(v) => extend_chars(&mut out, &v),
            }
            i += 1;
        }
        CalcResult::Text(string_of(&out))
    }
}

/// Two lists of texts one after the other, or the first error among them.
pub open spec fn join_lists(a: Result<Seq<Seq<char>>, ErrorKind>, b: Result<Seq<Seq<char>>, ErrorKind>) -> Result<Seq<Seq<char>>, ErrorKind> {
    match a {
        Err(e) => Err(e),
        Ok(t) => match b {
            Err(e) => Err(e),
            Ok(u) => Ok(t + u),
        },
    }
}

/// What a cell of a range adds to TEXTJOIN's list: its text; an empty cell
/// adds the empty text unless empties are ignored; an empty argument or a
/// nested range adds nothing; an error stops with that error, an array is
/// `#N/IMPL!` and a lambda `#VALUE!`.
pub open spec fn join_cell(c: Cell, ignore_empty: bool) -> Result<Seq<Seq<char>>, ErrorKind> {
    match c {
        Cell::Number(n) => Ok(seq![number_text(n)]),
        Cell::Text(s) => Ok(seq![s@]),
        Cell::Boolean(b) => Ok(seq![bool_text(b)]),
        Cell::EmptyCell => if ignore_empty {
            Ok(seq![])
        } else {
            Ok(seq![seq![]])
        },
        Cell::Error(e) => Err(e),
        Cell::Array => Err(ErrorKind::Nimpl),
        Cell::Lambda => Err(ErrorKind::Value),
        _ => Ok(seq![]),
    }
}

pub open spec fn join_cells(cells: Seq<Cell>, ignore_empty: bool, n: int) -> Result<Seq<Seq<char>>, ErrorKind>
    decreases n,
{
    if n <= 0 {
        Ok(seq![])
    } else {
        join_lists(join_cells(cells, ignore_empty, n - 1), join_cell(cells[n - 1], ignore_empty))
    }
}

pub open spec fn join_rows(rows: Seq<Vec<Cell>>, ignore_empty: bool, n: int) -> Result<Seq<Seq<char>>, ErrorKind>
    decreases n,
{
    if n <= 0 {
        Ok(seq![])
    } else {
        join_lists(
            join_rows(rows, ignore_empty, n - 1),
            join_cells(rows[n - 1]@, ignore_empty, rows[n - 1]@.len() as int),
        )
    }
}

/// What an argument adds to TEXTJOIN's list (a range adds its cells, row
/// by row, as `join_cell` says; other values as a cell of their kind does).
pub open spec fn join_item(c: CalcResult, ignore_empty: bool) -> Result<Seq<Seq<char>>, ErrorKind> {
    match c {
        CalcResult::Number(n) => Ok(seq![number_text(n)]),
        CalcResult::Text(s) => Ok(seq![s@]),
        CalcResult::Boolean(b) => Ok(seq![bool_text(b)]),
        CalcResult::EmptyCell => if ignore_empty {
            Ok(seq![])
        } else {
            Ok(seq![seq![]])
        },
        CalcResult::EmptyArg => Ok(seq![]),
        CalcResult::Error(e) => Err(e),
        CalcResult::Range(rows) => join_rows(rows@, ignore_empty, rows@.len() as int),
        CalcResult::Array(_) => Err(ErrorKind::Nimpl),
        CalcResult::Lambda => Err(ErrorKind::Value),
    }
}

pub open spec fn join_items(args: Seq<CalcResult>, ignore_empty: bool, n: int) -> Result<Seq<Seq<char>>, ErrorKind>
    decreases n,
{
    if n <= 0 {
        Ok(seq![])
    } else {
        join_lists(join_items(args, ignore_empty, n - 1), join_item(args[n - 1], ignore_empty))
    }
}

/// Appends `sep` and then `v` to `out`, or just `v` when `first`.
fn push_part(out: &mut Vec<char>, sep: &Vec<char>, v: &Vec<char>, first: bool)
    ensures
        final(out)@ == if first {
            old(out)@ + v@
        } else {
            old(out)@ + sep@ + v@
        },
{
    if !first {
        extend_chars(out, sep);
    }
    extend_chars(out, v);
}

proof fn lemma_join_push(parts: Seq<Seq<char>>, p: Seq<char>, sep: Seq<char>)
    ensures
        join(parts.push(p), sep) == if parts.len() == 0 {
            p
        } else {
            join(parts, sep) + sep + p
        },
{
    assert(parts.push(p).drop_last() =~= parts);
}

pub open spec fn list_result(r: Result<Vec<Vec<char>>, ErrorKind>) -> Result<Seq<Seq<char>>, ErrorKind> {
    match r {
        Ok(v) => Ok(pieces_view(v@)),
        Err(e) => Err(e),
    }
}

fn one_piece(v: Vec<char>) -> (r: Vec<Vec<char>>)
    ensures
        pieces_view(r@) == seq![v@],
{
    let mut r: Vec<Vec<char>> = Vec::new();
    r.push(v);
    assert(pieces_view(r@) =~= seq![v@]);
    r
}

fn no_piece() -> (r: Vec<Vec<char>>)
    ensures
        pieces_view(r@) == Seq::<Seq<char>>::empty(),
{
    let r: Vec<Vec<char>> = Vec::new();
    assert(pieces_view(r@) =~= Seq::<Seq<char>>::empty());
    r
}

proof fn lemma_join_cells_err(cells: Seq<Cell>, ig: bool, n: int, m: int, e: ErrorKind)
    requires
        0 <= n <= m,
        join_cells(cells, ig, n) == Err::<Seq<Seq<char>>, ErrorKind>(e),
    ensures
        join_cells(cells, ig, m) == Err::<Seq<Seq<char>>, ErrorKind>(e),
    decreases m - n,
{
    if m > n {
        lemma_join_cells_err(cells, ig, n, m - 1, e);
    }
}

proof fn lemma_join_rows_err(rows: Seq<Vec<Cell>>, ig: bool, n: int, m: int, e: ErrorKind)
    requires
        0 <= n <= m,
        join_rows(rows, ig, n) == Err::<Seq<Seq<char>>, ErrorKind>(e),
    ensures
        join_rows(rows, ig, m) == Err::<Seq<Seq<char>>, ErrorKind>(e),
    decreases m - n,
{
    if m > n {
        lemma_join_rows_err(rows, ig, n, m - 1, e);
    }
}

proof fn lemma_join_items_err(args: Seq<CalcResult>, ig: bool, n: int, m: int, e: ErrorKind)
    requires
        0 <= n <= m,
        join_items(args, ig, n) == Err::<Seq<Seq<char>>, ErrorKind>(e),
    ensures
        join_items(args, ig, m) == Err::<Seq<Seq<char>>, ErrorKind>(e),
    decreases m - n,
{
    if m > n {
        lemma_join_items_err(args, ig, n, m - 1, e);
    }
}

fn join_cell_exec(c: &Cell, ignore_empty: bool) -> (r: Result<Vec<Vec<char>>, ErrorKind>)
    ensures
        list_result(r) == join_cell(*c, ignore_empty),
{
    match c {
        Cell::Number(n) => Ok(one_piece(n.to_chars())),
        Cell::Text(s) => Ok(one_piece(chars_of(s.as_str()))),
        Cell::Boolean(b) => Ok(one_piece(bool_chars(*b))),
        Cell::EmptyCell => if ignore_empty {
            Ok(no_piece())
        } else {
            let e: Vec<char> = Vec::new();
            assert(e@ =~= Seq::<char>::empty());
            Ok(one_piece(e))
        },
        Cell::Error(e) => Err(*e),
        Cell::Array => Err(ErrorKind::Nimpl),
        Cell::Lambda => Err(ErrorKind::Value),
        _ => Ok(no_piece()),
    }
}

fn join_item_exec(c: &CalcResult, ignore_empty: bool) -> (r: Result<Vec<Vec<char>>, ErrorKind>)
    ensures
        list_result(r) == join_item(*c, ignore_empty),
{
    match c {
        CalcResult::Number(n) => Ok(one_piece(n.to_chars())),
        CalcResult::Text(s) => Ok(one_piece(chars_of(s.as_str()))),
        CalcResult::Boolean(b) => Ok(one_piece(bool_chars(*b))),
        CalcResult::EmptyCell => if ignore_empty {
            Ok(no_piece())
        } else {
            let e: Vec<char> = Vec::new();
            assert(e@ =~= Seq::<char>::empty());
            Ok(one_piece(e))
        },
        CalcResult::EmptyArg => Ok(no_piece()),
        CalcResult::Error(e) => Err(*e),
        CalcResult::Range(rows) => {
            let mut all: Vec<Vec<char>> = Vec::new();
            assert(pieces_view(all@) =~= Seq::<Seq<char>>::empty());
            let mut i: usize = 0;
            while i < rows.len()
                invariant
                    i <= rows.len(),
                    *c == CalcResult::Range(*rows),
                    join_rows(rows@, ignore_empty, i as int) == Ok::<Seq<Seq<char>>, ErrorKind>(pieces_view(all@)),
                decreases rows.len() - i,
            {
                let row = &rows[i];
                let ghost before = pieces_view(all@);
                assert(pieces_view(all@).skip(before.len() as int) =~= Seq::<Seq<char>>::empty());
                let mut j: usize = 0;
                while j < row.len()
                    invariant
                        j <= row.len(),
                        pieces_view(all@).len() >= before.len(),
                        pieces_view(all@).take(before.len() as int) == before,
                        i < rows.len(),
                        *c == CalcResult::Range(*rows),
                        *row == rows@[i as int],
                        join_rows(rows@, ignore_empty, i as int) == Ok::<Seq<Seq<char>>, ErrorKind>(before),
                        join_cells(row@, ignore_empty, j as int) == Ok::<Seq<Seq<char>>, ErrorKind>(
                            pieces_view(all@).skip(before.len() as int),
                        ),
                    decreases row.len() - j,
                {
                    match join_cell_exec(&row[j], ignore_empty) {
                        Err(e) => {
                            proof {
                                lemma_join_cells_err(row@, ignore_empty, j as int + 1, row@.len() as int, e);
                                lemma_join_rows_err(rows@, ignore_empty, i as int + 1, rows@.len() as int, e);
                            }
                            return Err(e);
                        },
                        Ok(mut more) => {
                            let ghost prev = pieces_view(all@);
                            let ghost extra = pieces_view(more@);
                            all.append(&mut more);
                            assert(pieces_view(all@) =~= prev + extra);
                            assert(pieces_view(all@).skip(before.len() as int) =~= prev.skip(
                                before.len() as int,
                            ) + extra);
                            assert(pieces_view(all@).take(before.len() as int) =~= prev.take(
                                before.len() as int,
                            ));
                        },
                    }
                    j += 1;
                }
                assert(pieces_view(all@) =~= before + pieces_view(all@).skip(before.len() as int));
                i += 1;
            }
            Ok(all)
        },
        CalcResult::Array(_) => Err(ErrorKind::Nimpl),
        CalcResult::Lambda => Err(ErrorKind::Value),
    }
}

/// The texts joined with `sep` between them.
pub fn join_chars(parts: &Vec<Vec<char>>, sep: &Vec<char>) -> (r: Vec<char>)
    ensures
        r@ == join(pieces_view(parts@), sep@),
{
    let ghost ps = pieces_view(parts@);
    let mut out: Vec<char> = Vec::new();
    let mut i: usize = 0;
    while i < parts.len()
        invariant
            i <= parts.len(),
            ps == pieces_view(parts@),
            out@ == join(ps.take(i as int), sep@),
        decreases parts.len() - i,
    {
        proof {
            lemma_join_push(ps.take(i as int), ps[i as int], sep@);
            assert(ps.take(i as int).push(ps[i as int]) =~= ps.take(i as int + 1));
        }
        push_part(&mut out, sep, &parts[i], i == 0);
        i += 1;
    }
    assert(ps.take(parts.len() as int) =~= ps);
    out
}

impl Model {
    /// TEXTJOIN(delimiter, ignore_empty, text1, ...): the texts of the values
    /// (see `join_item`) joined with the delimiter between them, or the first
    /// error met; no value at all is a wrong number of arguments (`#ERROR!`).
    pub fn fn_textjoin(&self, delimiter: &str, ignore_empty: bool, values: &Vec<CalcResult>) -> (r: CalcResult)
        ensures
            values.len() == 0 ==> is_error(r, ErrorKind::Error),
            values.len() > 0 ==> match join_items(values@, ignore_empty, values@.len() as int) {
                Err(e) => is_error(r, e),
                Ok(parts) => is_text(r, join(parts, delimiter@)),
            },
    {
        if values.len() == 0 {
            return CalcResult::Error(ErrorKind::Error);
        }
        let mut all: Vec<Vec<char>> = Vec::new();
        assert(pieces_view(all@) =~= Seq::<Seq<char>>::empty());
        let mut i: usize = 0;
        while i < values.len()
            invariant
                i <= values.len(),
                join_items(values@, ignore_empty, i as int) == Ok::<Seq<Seq<char>>, ErrorKind>(pieces_view(all@)),
            decreases values.len() - i,
        {
            match join_item_exec(&values[i], ignore_empty) {
                Err(e) => {
                    proof {
                        lemma_join_items_err(values@, ignore_empty, i as int + 1, values@.len() as int, e);
                    }
                    return CalcResult::Error(e);
                },
                Ok(mut more) => {
                    let ghost prev = pieces_view(all@);
                    let ghost extra = pieces_view(more@);
                    all.append(&mut more);
                    assert(pieces_view(all@) =~= prev + extra);
                },
            }
            i += 1;
        }
        let sep = chars_of(delimiter);
        CalcResult::Text(string_of(&join_chars(&all, &sep)))
    }
}


/// The instance number of TEXTAFTER and TEXTBEFORE (floored; one by default).
pub open spec fn instance_of(n: Option<Number>) -> int {
    match n {
        Some(x) => spec_floor_i32(x),
        None => 1,
    }
}

/// Whether the match mode asks for a case-insensitive search (any non-zero).
pub open spec fn insensitive_of(m: Option<Number>) -> bool {
    match m {
        Some(x) => x.scaled != 0,
        None => false,
    }
}

/// The match-end argument, in billionths (zero by default).
pub open spec fn match_end_of(m: Option<Number>) -> int {
    match m {
        Some(x) => x.scaled as int,
        None => 0,
    }
}

/// The text searched in: lowered for a case-insensitive search.
pub open spec fn haystack(s: Seq<char>, insensitive: bool) -> Seq<char> {
    if insensitive {
        lowercase(s)
    } else {
        s
    }
}

/// Where the `instance`-th delimiter starts: counted from the start for a
/// positive instance, from the end for a negative one.
pub open spec fn delimiter_at(s: Seq<char>, d: Seq<char>, instance: int) -> Option<int> {
    if instance > 0 {
        nth_from(s, d, 0, instance)
    } else {
        nth_back(s, d, s.len() as int, -instance)
    }
}

/// The text after the `instance`-th delimiter, if there is one.
pub open spec fn text_after(s: Seq<char>, d: Seq<char>, instance: int, insensitive: bool) -> Option<Seq<char>> {
    let hd = haystack(d, insensitive);
    match delimiter_at(haystack(s, insensitive), hd, instance) {
        None => None,
        Some(p) => Some(s.skip(min_int(p + hd.len(), s.len() as int))),
    }
}

/// The text before the `instance`-th delimiter, if there is one.
pub open spec fn text_before(s: Seq<char>, d: Seq<char>, instance: int, insensitive: bool) -> Option<Seq<char>> {
    match delimiter_at(haystack(s, insensitive), haystack(d, insensitive), instance) {
        None => None,
        Some(p) => Some(s.take(min_int(p, s.len() as int))),
    }
}

/// The result when no delimiter is found: the given value (an empty cell
/// read as the empty text), or `#N/A` when none is given.
pub open spec fn not_found(r: CalcResult, fallback: Option<CalcResult>) -> bool {
    match fallback {
        None => is_error(r, ErrorKind::Na),
        Some(c) => if c is EmptyCell {
            is_text(r, seq![])
        } else {
            r == c
        },
    }
}

/// An argument beyond the text and the delimiter was given.
pub open spec fn more_than_two(
    instance_num: Option<Number>,
    match_mode: Option<Number>,
    match_end: Option<Number>,
    if_not_found: Option<CalcResult>,
) -> bool {
    instance_num is Some || match_mode is Some || match_end is Some || if_not_found is Some
}

/// The text has fewer bytes than the delimiter.
pub open spec fn shorter_than(text: &str, delimiter: &str) -> bool {
    delimiter.len() > text.len()
}

fn lowered_or_same(v: &Vec<char>, insensitive: bool) -> (r: Vec<char>)
    ensures
        r@ == haystack(v@, insensitive),
{
    if insensitive {
        let t = string_of(v);
        let l = to_lowercase(t.as_str());
        chars_of(l.as_str())
    } else {
        slice_chars(v, 0, v.len())
    }
}

/// Where the `instance`-th delimiter starts in the searched text, and the
/// length of the searched delimiter.
fn locate(t: &Vec<char>, d: &Vec<char>, instance: i32, insensitive: bool) -> (r: (Option<usize>, usize))
    requires
        instance != 0,
    ensures
        r.1 == haystack(d@, insensitive).len(),
        match r.0 {
            Some(p) => delimiter_at(haystack(t@, insensitive), haystack(d@, insensitive), instance as int)
                == Some(p as int),
            None => delimiter_at(haystack(t@, insensitive), haystack(d@, insensitive), instance as int) is None,
        },
{
    let hs = lowered_or_same(t, insensitive);
    let hd = lowered_or_same(d, insensitive);
    if instance > 0 {
        (nth_from_exec(&hs, &hd, instance as u32), hd.len())
    } else {
        let n: u32 = (0 - (instance as i64)) as u32;
        (nth_back_exec(&hs, &hd, n), hd.len())
    }
}

fn fallback_result(fallback: Option<CalcResult>) -> (r: CalcResult)
    ensures
        not_found(r, fallback),
{
    match fallback {
        None => CalcResult::Error(ErrorKind::Na),
        Some(CalcResult::EmptyCell) => CalcResult::Text(String::new()),
        Some(c) => c,
    }
}

impl Model {
    /// TEXTAFTER(text, delimiter, [instance_num], [match_mode], [match_end],
    /// [if_not_found]): the text after the `instance_num`-th delimiter
    /// (counted from the end when negative). An instance of zero, or a match
    /// end other than 0 or 1, is `#VALUE!`; a delimiter with more bytes than
    /// the text is `#VALUE!` when only the text and the delimiter are given
    /// and `#N/A` when more arguments are.
    /// With no delimiter found, match end 1 treats the end of the text as a
    /// delimiter for instance 1 and the start for instance -1; otherwise
    /// the `if_not_found` value or `#N/A`.
    pub fn fn_textafter(
        &self,
        text: &str,
        delimiter: &str,
        instance_num: Option<Number>,
        match_mode: Option<Number>,
        match_end: Option<Number>,
        if_not_found: Option<CalcResult>,
    ) -> (r: CalcResult)
        ensures
            ({
                let inst = instance_of(instance_num);
                let me = match_end_of(match_end);
                if inst == 0 {
                    is_error(r, ErrorKind::Value)
                } else if shorter_than(text, delimiter) {
                    is_error(r, if more_than_two(instance_num, match_mode, match_end, if_not_found) { ErrorKind::Na } else { ErrorKind::Value })
                } else if me != 0 && me != SCALE {
                    is_error(r, ErrorKind::Value)
                } else {
                    match text_after(text@, delimiter@, inst, insensitive_of(match_mode)) {
                        Some(t) => is_text(r, t),
                        None => if me == SCALE && inst == 1 {
                            is_text(r, seq![])
                        } else if me == SCALE && inst == -1 {
                            is_text(r, text@)
                        } else {
                            not_found(r, if_not_found)
                        },
                    }
                }
            }),
    {
        let inst: i32 = match instance_num {
            Some(n) => n.floor_i32(),
            None => 1,
        };
        let insensitive = match match_mode {
            Some(m) => m.scaled != 0,
            None => false,
        };
        let me: i128 = match match_end {
            Some(m) => m.scaled,
            None => 0,
        };
        if inst == 0 {
            return CalcResult::Error(ErrorKind::Value);
        }
        if delimiter.len() > text.len() {
            return if instance_num.is_some() || match_mode.is_some() || match_end.is_some() || if_not_found.is_some() {
                CalcResult::Error(ErrorKind::Na)
            } else {
                CalcResult::Error(ErrorKind::Value)
            };
        }
        if me != 0 && me != SCALE {
            return CalcResult::Error(ErrorKind::Value);
        }
        let t = chars_of(text);
        let d = chars_of(delimiter);
        let (found, dlen) = locate(&t, &d, inst, insensitive);
        match found {
            Some(p) => {
                let start = if dlen <= t.len() && p <= t.len() - dlen {
                    p + dlen
                } else {
                    t.len()
                };
                CalcResult::Text(string_of(&slice_chars(&t, start, t.len())))
            },
            None => {
                if me == SCALE && inst == 1 {
                    CalcResult::Text(String::new())
                } else if me == SCALE && inst == -1 {
                    CalcResult::Text(string_of(&t))
                } else {
                    fallback_result(if_not_found)
                }
            },
        }
    }

    /// TEXTBEFORE(text, delimiter, [instance_num], [match_mode], [match_end],
    /// [if_not_found]): the text before the `instance_num`-th delimiter, with
    /// the errors of TEXTAFTER. With no delimiter found, match end 1 treats
    /// the start of the text as a delimiter for instance -1 and the end for
    /// instance 1; otherwise the `if_not_found` value or `#N/A`.
    pub fn fn_textbefore(
        &self,
        text: &str,
        delimiter: &str,
        instance_num: Option<Number>,
        match_mode: Option<Number>,
        match_end: Option<Number>,
        if_not_found: Option<CalcResult>,
    ) -> (r: CalcResult)
        ensures
            ({
                let inst = instance_of(instance_num);
                let me = match_end_of(match_end);
                if inst == 0 {
                    is_error(r, ErrorKind::Value)
                } else if shorter_than(text, delimiter) {
                    is_error(r, if more_than_two(instance_num, match_mode, match_end, if_not_found) { ErrorKind::Na } else { ErrorKind::Value })
                } else if me != 0 && me != SCALE {
                    is_error(r, ErrorKind::Value)
                } else {
                    match text_before(text@, delimiter@, inst, insensitive_of(match_mode)) {
                        Some(t) => is_text(r, t),
                        None => if me == SCALE && inst == -1 {
                            is_text(r, seq![])
                        } else if me == SCALE && inst == 1 {
                            is_text(r, text@)
                        } else {
                            not_found(r, if_not_found)
                        },
                    }
                }
            }),
    {
        let inst: i32 = match instance_num {
            Some(n) => n.floor_i32(),
            None => 1,
        };
        let insensitive = match match_mode {
            Some(m) => m.scaled != 0,
            None => false,
        };
        let me: i128 = match match_end {
            Some(m) => m.scaled,
            None => 0,
        };
        if inst == 0 {
            return CalcResult::Error(ErrorKind::Value);
        }
        if delimiter.len() > text.len() {
            return if instance_num.is_some() || match_mode.is_some() || match_end.is_some() || if_not_found.is_some() {
                CalcResult::Error(ErrorKind::Na)
            } else {
                CalcResult::Error(ErrorKind::Value)
            };
        }
        if me != 0 && me != SCALE {
            return CalcResult::Error(ErrorKind::Value);
        }
        let t = chars_of(text);
        let d = chars_of(delimiter);
        let (found, _dlen) = locate(&t, &d, inst, insensitive);
        match found {
            Some(p) => {
                let end = if p <= t.len() {
                    p
                } else {
                    t.len()
                };
                CalcResult::Text(string_of(&slice_chars(&t, 0, end)))
            },
            None => {
                if me == SCALE && inst == -1 {
                    CalcResult::Text(String::new())
                } else if me == SCALE && inst == 1 {
                    CalcResult::Text(string_of(&t))
                } else {
                    fallback_result(if_not_found)
                }
            },
        }
    }
}

/// `s` with the `n`-th occurrence of `d` (from the left, not overlapping)
/// replaced by `t`; `s` itself when there are fewer.
pub open spec fn substitute_nth(s: Seq<char>, d: Seq<char>, t: Seq<char>, n: int) -> Seq<char> {
    match nth_from(s, d, 0, n) {
        None => s,
        Some(p) => s.take(p) + t + s.skip(p + d.len()),
    }
}

proof fn lemma_nth_from_bound(s: Seq<char>, d: Seq<char>, k: int, n: int)
    requires
        k >= 0,
    ensures
        match nth_from(s, d, k, n) {
            Some(p) => k <= p && p + d.len() <= s.len(),
            None => true,
        },
    decreases n,
{
    lemma_find_from(s, d, k);
    if n > 1 {
        match find_from(s, d, k) {
            None => {},
            Some(p) => {
                lemma_nth_from_bound(s, d, p + d.len(), n - 1);
            },
        }
    }
}

impl Model {
    /// SUBSTITUTE(text, old_text, new_text, [instance_num]): every occurrence
    /// of `old_text` replaced by `new_text` (taken from the left without
    /// overlapping), or only the `instance_num`-th (floored) when given, which
    /// must be at least one (else `#VALUE!`). An empty `old_text` changes
    /// nothing.
    pub fn fn_substitute(&self, text: &str, old_text: &str, new_text: &str, instance_num: Option<Number>) -> (r: CalcResult)
        ensures
            match instance_num {
                Some(n) => if spec_floor_i32(n) < 1 {
                    is_error(r, ErrorKind::Value)
                } else if old_text@.len() == 0 {
                    is_text(r, text@)
                } else {
                    is_text(r, substitute_nth(text@, old_text@, new_text@, spec_floor_i32(n)))
                },
                None => if old_text@.len() == 0 {
                    is_text(r, text@)
                } else {
                    is_text(r, join(split(text@, old_text@), new_text@))
                },
            },
    {
        let t = chars_of(text);
        let d = chars_of(old_text);
        let u = chars_of(new_text);
        match instance_num {
            Some(n) => {
                let k = n.floor_i32();
                if k < 1 {
                    return CalcResult::Error(ErrorKind::Value);
                }
                if d.len() == 0 {
                    return CalcResult::Text(string_of(&t));
                }
                assert((k as u32) as int == k as int);
                match nth_from_exec(&t, &d, k as u32) {
                    None => CalcResult::Text(string_of(&t)),
                    Some(p) => {
                        proof {
                            lemma_nth_from_bound(t@, d@, 0, k as int);
                            assert(nth_from(t@, d@, 0, k as int) == Some(p as int));
                        }
                        assert(p + d.len() <= t.len());
                        let mut out = slice_chars(&t, 0, p);
                        extend_chars(&mut out, &u);
                        let rest = slice_chars(&t, p + d.len(), t.len());
                        extend_chars(&mut out, &rest);
                        assert(out@ =~= t@.take(p as int) + u@ + t@.skip(p + d.len()));
                        CalcResult::Text(string_of(&out))
                    },
                }
            },
            None => {
                if d.len() == 0 {
                    return CalcResult::Text(string_of(&t));
                }
                let parts = split_chars(&t, &d);
                CalcResult::Text(string_of(&join_chars(&parts, &u)))
            },
        }
    }
}


/// Where FIND finds `d` in `s` from the one-based position `start` on: the
/// one-based position of the first occurrence that starts at a character
/// (an empty `d` occurs at every character).
pub open spec fn find_position(s: Seq<char>, d: Seq<char>, start: int) -> Option<int> {
    let k = if start > 0 {
        start - 1
    } else {
        0
    };
    match find_from(s, d, k) {
        Some(p) => if p < s.len() {
            Some(p + 1)
        } else {
            None
        },
        None => None,
    }
}

/// Where SEARCH finds the wildcard pattern `pat` in `s` from the one-based
/// position `start` on: the one-based position of the first place, from a
/// character at or after `start` up to the end of `s`, where the pattern
/// matches; nothing when `start` is past the last character.
pub open spec fn search_position(pat: Seq<char>, s: Seq<char>, start: int) -> Option<int> {
    let k = if start > 0 {
        start - 1
    } else {
        0
    };
    if k >= s.len() {
        None
    } else {
        match first_match_from(wild_tokens(pat), s, k) {
            Some(p) => Some(p + 1),
            None => None,
        }
    }
}

pub open spec fn position_as_i32(p: Option<int>) -> Option<i32> {
    match p {
        Some(x) => Some(x as i32),
        None => None,
    }
}

/// The one-based position of the first occurrence of `search_for` in `text`
/// at or after the character `start` (see `find_position`).
pub fn find(search_for: &str, text: &str, start: usize) -> (r: Option<i32>)
    ensures
        r == position_as_i32(find_position(text@, search_for@, start as int)),
{
    let t = chars_of(text);
    let d = chars_of(search_for);
    let k: usize = if start > 0 {
        start - 1
    } else {
        0
    };
    match find_from_exec(&t, &d, k) {
        Some(p) => if p < t.len() {
            Some((p + 1) as i32)
        } else {
            None
        },
        None => None,
    }
}

/// The one-based position where the wildcard pattern `search_for` first
/// matches in `text` at or after the character `start` (see
/// `search_position`): `?` matches any character, `*` any run of
/// characters, and a tilde makes the next `?`, `*` or `~` literal.
pub fn search(search_for: &str, text: &str, start: usize) -> (r: Option<i32>)
    ensures
        r == position_as_i32(search_position(search_for@, text@, start as int)),
{
    let t = chars_of(text);
    let pat = chars_of(search_for);
    let toks = wild_tokens_exec(&pat);
    let k: usize = if start > 0 {
        start - 1
    } else {
        0
    };
    if k >= t.len() {
        return None;
    }
    match first_match_exec(&toks, &t, k) {
        Some(p) => Some(((p as u128) + 1) as i32),
        None => None,
    }
}

/// The start position of FIND and SEARCH: floored, one by default.
pub open spec fn start_of(start_num: Option<Number>) -> int {
    match start_num {
        Some(n) => spec_floor_usize(n),
        None => 1,
    }
}

/// The start position is below one.
pub open spec fn start_too_small(start_num: Option<Number>) -> bool {
    match start_num {
        Some(n) => n.scaled < SCALE,
        None => false,
    }
}

/// The text has fewer bytes than the start position.
pub open spec fn start_past_end(within_text: &str, start: int) -> bool {
    start > within_text.len()
}

pub open spec fn position_result(r: CalcResult, p: Option<int>) -> bool {
    match position_as_i32(p) {
        Some(x) => is_number(r, x * SCALE),
        None => is_error(r, ErrorKind::Value),
    }
}

impl Model {
    /// FIND(find_text, within_text, [start_num]): the position of `find_text`
    /// in `within_text`, case-sensitive and without wildcards. A start below
    /// one, a start past the number of bytes of the text, or no occurrence,
    /// is `#VALUE!`.
    pub fn fn_find(&self, find_text: &str, within_text: &str, start_num: Option<Number>) -> (r: CalcResult)
        ensures
            if start_too_small(start_num) || start_past_end(within_text, start_of(start_num)) {
                is_error(r, ErrorKind::Value)
            } else {
                position_result(r, find_position(within_text@, find_text@, start_of(start_num)))
            },
    {
        let start: usize = match start_num {
            Some(n) => {
                if n.scaled < SCALE {
                    return CalcResult::Error(ErrorKind::Value);
                }
                n.floor_usize()
            },
            None => 1,
        };
        if start > within_text.len() {
            return CalcResult::Error(ErrorKind::Value);
        }
        match find(find_text, within_text, start) {
            Some(p) => CalcResult::Number(Number::from_int(p as i64)),
            None => CalcResult::Error(ErrorKind::Value),
        }
    }

    /// SEARCH(find_text, within_text, [start_num]): like FIND, but
    /// case-insensitive (both texts lowered) and with wildcards.
    pub fn fn_search(&self, find_text: &str, within_text: &str, start_num: Option<Number>) -> (r: CalcResult)
        ensures
            if start_too_small(start_num) || start_past_end(within_text, start_of(start_num)) {
                is_error(r, ErrorKind::Value)
            } else {
                position_result(
                    r,
                    search_position(lowercase(find_text@), lowercase(within_text@), start_of(start_num)),
                )
            },
    {
        let start: usize = match start_num {
            Some(n) => {
                if n.scaled < SCALE {
                    return CalcResult::Error(ErrorKind::Value);
                }
                n.floor_usize()
            },
            None => 1,
        };
        if start > within_text.len() {
            return CalcResult::Error(ErrorKind::Value);
        }
        let f = to_lowercase(find_text);
        let w = to_lowercase(within_text);
        match search(f.as_str(), w.as_str(), start) {
            Some(p) => CalcResult::Number(Number::from_int(p as i64)),
            None => CalcResult::Error(ErrorKind::Value),
        }
    }
}

/// `s` written `n` times.
pub open spec fn repeat(s: Seq<char>, n: int) -> Seq<char>
    decreases n,
{
    if n <= 0 {
        seq![]
    } else {
        repeat(s, n - 1) + s
    }
}

impl Model {
    /// REPT(text, number_times): the text repeated `number_times` (floored)
    /// times. A repetition of more than 32767 bytes, or a negative count, is
    /// `#VALUE!`.
    pub fn fn_rept(&self, text: &str, number_times: Number) -> (r: CalcResult)
        ensures
            ({
                let k = spec_floor_i32(number_times);
                if k < 0 || text.len() * k > 32767 {
                    is_error(r, ErrorKind::Value)
                } else {
                    is_text(r, repeat(text@, k))
                }
            }),
    {
        let k = number_times.floor_i32();
        if k < 0 {
            return CalcResult::Error(ErrorKind::Value);
        }
        let text_len = text.len() as u128;
        let times = k as u128;
        assert(text_len * times <= u64::MAX * i32::MAX) by (nonlinear_arith)
            requires
                text_len <= u64::MAX,
                0 <= times <= i32::MAX,
        ;
        if text_len * times > 32767 {
            return CalcResult::Error(ErrorKind::Value);
        }
        let t = chars_of(text);
        let mut out: Vec<char> = Vec::new();
        let mut i: i32 = 0;
        while i < k
            invariant
                0 <= i <= k,
                out@ == repeat(t@, i as int),
            decreases k - i,
        {
            extend_chars(&mut out, &t);
            i += 1;
        }
        CalcResult::Text(string_of(&out))
    }
}

/// The first `n` texts one after another.
pub open spec fn concat_texts(v: Seq<String>, n: int) -> Seq<char>
    decreases n,
{
    if n <= 0 {
        seq![]
    } else {
        concat_texts(v, n - 1) + v[n - 1]@
    }
}

impl Model {
    /// CONCATENATE(text1, ...): the texts one after another; no text at all
    /// is a wrong number of arguments (`#ERROR!`).
    pub fn fn_concatenate(&self, texts: &Vec<String>) -> (r: CalcResult)
        ensures
            texts.len() == 0 ==> is_error(r, ErrorKind::Error),
            texts.len() > 0 ==> is_text(r, concat_texts(texts@, texts.len() as int)),
    {
        if texts.len() == 0 {
            return CalcResult::Error(ErrorKind::Error);
        }
        let mut out: Vec<char> = Vec::new();
        let mut i: usize = 0;
        while i < texts.len()
            invariant
                i <= texts.len(),
                out@ == concat_texts(texts@, i as int),
            decreases texts.len() - i,
        {
            let v = chars_of(texts[i].as_str());
            extend_chars(&mut out, &v);
            i += 1;
        }
        CalcResult::Text(string_of(&out))
    }

    /// T(value): a text or an error as it is, anything else the empty text.
    pub fn fn_t(&self, value: CalcResult) -> (r: CalcResult)
        ensures
            match value {
                CalcResult::Text(_) => r == value,
                CalcResult::Error(_) => r == value,
                _ => is_text(r, seq![]),
            },
    {
        match value {
            CalcResult::Text(_) => value,
            CalcResult::Error(_) => value,
            _ => CalcResult::Text(String::new()),
        }
    }

    /// VALUETOTEXT(value): the value's text; when it cannot be read as text,
    /// the text of its error (or the empty text when there is no error).
    pub fn fn_valuetotext(&self, text: Result<String, Option<ErrorKind>>) -> (r: CalcResult)
        ensures
            match text {
                Ok(s) => is_text(r, s@),
                Err(Some(e)) => is_text(r, error_text(e)),
                Err(None) => is_text(r, seq![]),
            },
    {
        match text {
            Ok(s) => CalcResult::Text(s),
            Err(Some(e)) => CalcResult::Text(e.text()),
            Err(None) => CalcResult::Text(String::new()),
        }
    }

    /// CHAR(number): the character with code 1 to 255 (the number floored);
    /// any other code is `#VALUE!`.
    pub fn fn_char(&self, number: Number) -> (r: CalcResult)
        ensures
            ({
                let code = spec_floor_i64(number);
                if code < 1 || code > 255 {
                    is_error(r, ErrorKind::Value)
                } else {
                    is_text(r, seq![(code as u8) as char])
                }
            }),
    {
        let code = number.floor_i64();
        if code < 1 || code > 255 {
            return CalcResult::Error(ErrorKind::Value);
        }
        let b = code as u8;
        let mut v: Vec<char> = Vec::new();
        v.push(b as char);
        assert(v@ =~= seq![(code as u8) as char]);
        CalcResult::Text(string_of(&v))
    }

    /// CODE(text): the code point of the first character; an empty text is
    /// `#VALUE!`.
    pub fn fn_code(&self, text: &str) -> (r: CalcResult)
        ensures
            if text@.len() == 0 {
                is_error(r, ErrorKind::Value)
            } else {
                is_number(r, (text@[0] as u32) * SCALE)
            },
    {
        let t = chars_of(text);
        if t.len() == 0 {
            return CalcResult::Error(ErrorKind::Value);
        }
        let code = t[0] as u32;
        CalcResult::Number(Number::from_int(code as i64))
    }

    /// UNICHAR(number): the character with that code point (floored); a code
    /// below one or one that is no Unicode scalar value is `#VALUE!`.
    pub fn fn_unichar(&self, number: Number) -> (r: CalcResult)
        ensures
            ({
                let code = spec_floor_u32(number);
                if code < 1 || !scalar_value(code as u32) {
                    is_error(r, ErrorKind::Value)
                } else {
                    &&& r is Text
                    &&& r->Text_0@.len() == 1
                    &&& r->Text_0@[0] as u32 == code
                }
            }),
    {
        let code = number.floor_u32();
        if code < 1 {
            return CalcResult::Error(ErrorKind::Value);
        }
        match char_from_u32(code) {
            Some(c) => {
                let mut v: Vec<char> = Vec::new();
                v.push(c);
                CalcResult::Text(string_of(&v))
            },
            None => CalcResult::Error(ErrorKind::Value),
        }
    }
}

/// The first `n` characters of `s` without those with codes 0 to 31.
pub open spec fn cleaned(s: Seq<char>, n: int) -> Seq<char>
    decreases n,
{
    if n <= 0 {
        seq![]
    } else if (s[n - 1] as u32) > 31 {
        cleaned(s, n - 1).push(s[n - 1])
    } else {
        cleaned(s, n - 1)
    }
}

/// PROPER's text from here on: a letter is upper-cased when `cap` holds and
/// lower-cased otherwise; after a letter the next one is lower-cased, after
/// another character it is capitalised unless that character is a digit
/// (not alphanumeric).
pub open spec fn proper_from(s: Seq<char>, cap: bool) -> Seq<char>
    decreases s.len(),
{
    if s.len() == 0 {
        seq![]
    } else if alphabetic(s[0]) {
        (if cap {
            char_upper(s[0])
        } else {
            char_lower(s[0])
        }) + proper_from(s.skip(1), false)
    } else {
        seq![s[0]] + proper_from(s.skip(1), !alphanumeric(s[0]))
    }
}

/// REPLACE's result: the characters before the zero-based position `s`,
/// the new text, then the characters from `s + count` on.
pub open spec fn replaced(t: Seq<char>, s: int, count: int, new_text: Seq<char>) -> Seq<char> {
    t.take(min_int(s, t.len() as int)) + new_text + t.skip(min_int(s + count, t.len() as int))
}

impl Model {
    /// CLEAN(text): the text without the characters with codes 0 to 31.
    pub fn fn_clean(&self, text: &str) -> (r: CalcResult)
        ensures
            is_text(r, cleaned(text@, text@.len() as int)),
    {
        let t = chars_of(text);
        let mut out: Vec<char> = Vec::new();
        let mut i: usize = 0;
        while i < t.len()
            invariant
                i <= t.len(),
                out@ == cleaned(t@, i as int),
            decreases t.len() - i,
        {
            if (t[i] as u32) > 31 {
                out.push(t[i]);
            }
            i += 1;
        }
        CalcResult::Text(string_of(&out))
    }

    /// PROPER(text): the first letter of each word upper-cased and the other
    /// letters lower-cased (see `proper_from`).
    pub fn fn_proper(&self, text: &str) -> (r: CalcResult)
        ensures
            is_text(r, proper_from(text@, true)),
    {
        let t = chars_of(text);
        let mut out: Vec<char> = Vec::new();
        let mut cap = true;
        let mut i: usize = 0;
        assert(t@.skip(0) =~= t@);
        while i < t.len()
            invariant
                i <= t.len(),
                out@ + proper_from(t@.skip(i as int), cap) == proper_from(t@, true),
            decreases t.len() - i,
        {
            let ghost rest = t@.skip(i as int);
            let ghost before = out@;
            let c = t[i];
            assert(rest[0] == c);
            assert(rest.skip(1) =~= t@.skip(i + 1));
            if is_alphabetic(c) {
                let v = if cap {
                    upper_chars(c)
                } else {
                    lower_chars(c)
                };
                extend_chars(&mut out, &v);
                assert(out@ + proper_from(t@.skip(i + 1), false) =~= before + proper_from(rest, cap));
                cap = false;
            } else {
                out.push(c);
                let next_cap = !is_alphanumeric(c);
                assert(out@ + proper_from(t@.skip(i + 1), next_cap) =~= before + proper_from(rest, cap));
                cap = next_cap;
            }
            i += 1;
        }
        assert(t@.skip(t.len() as int) =~= Seq::<char>::empty());
        assert(out@ + Seq::<char>::empty() =~= out@);
        CalcResult::Text(string_of(&out))
    }

    /// REPLACE(old_text, start_num, num_chars, new_text): `num_chars`
    /// characters from the one-based `start_num` on replaced by `new_text`
    /// (both numbers floored). A start below one or a negative count is
    /// `#VALUE!`.
    pub fn fn_replace(&self, old_text: &str, start_num: Number, num_chars: Number, new_text: &str) -> (r: CalcResult)
        ensures
            ({
                let start = spec_floor_i64(start_num);
                let count = spec_floor_i64(num_chars);
                if start < 1 || count < 0 {
                    is_error(r, ErrorKind::Value)
                } else {
                    is_text(r, replaced(old_text@, start - 1, count, new_text@))
                }
            }),
    {
        let start = start_num.floor_i64();
        let count = num_chars.floor_i64();
        if start < 1 {
            return CalcResult::Error(ErrorKind::Value);
        }
        if count < 0 {
            return CalcResult::Error(ErrorKind::Value);
        }
        let t = chars_of(old_text);
        let n = t.len();
        let s0: i128 = (start as i128) - 1;
        let a: usize = if s0 < n as i128 {
            s0 as usize
        } else {
            n
        };
        let b: usize = if s0 + (count as i128) < n as i128 {
            (s0 + count as i128) as usize
        } else {
            n
        };
        let mut out = slice_chars(&t, 0, a);
        let u = chars_of(new_text);
        extend_chars(&mut out, &u);
        let rest = slice_chars(&t, b, n);
        extend_chars(&mut out, &rest);
        CalcResult::Text(string_of(&out))
    }
}


impl Model {
    /// VALUE(text): a text becomes the number it reads as (`parsed`, read
    /// with `$` and `€` allowed as currency signs) or `#VALUE!` when it reads
    /// as none; a number stays itself, an empty value is zero, an error stays
    /// the error; a boolean, a range or a lambda is `#VALUE!` and an array
    /// `#N/IMPL!`.
    pub fn fn_value(&self, value: &CalcResult, parsed: Option<Number>) -> (r: CalcResult)
        ensures
            match *value {
                CalcResult::Text(_) => match parsed {
                    Some(n) => r == CalcResult::Number(n),
                    None => is_error(r, ErrorKind::Value),
                },
                CalcResult::Number(f) => r == CalcResult::Number(f),
                CalcResult::Error(e) => is_error(r, e),
                CalcResult::EmptyCell => is_number(r, 0),
                CalcResult::EmptyArg => is_number(r, 0),
                CalcResult::Array(_) => is_error(r, ErrorKind::Nimpl),
                _ => is_error(r, ErrorKind::Value),
            },
    {
        match value {
            CalcResult::Text(_) => match parsed {
                Some(n) => CalcResult::Number(n),
                None => CalcResult::Error(ErrorKind::Value),
            },
            CalcResult::Number(f) => CalcResult::Number(*f),
            CalcResult::Error(e) => CalcResult::Error(*e),
            CalcResult::EmptyCell => CalcResult::Number(Number::from_scaled(0)),
            CalcResult::EmptyArg => CalcResult::Number(Number::from_scaled(0)),
            CalcResult::Array(_) => CalcResult::Error(ErrorKind::Nimpl),
            _ => CalcResult::Error(ErrorKind::Value),
        }
    }
}


/// Ten to the power `k`.
pub open spec fn pow10(k: nat) -> nat
    decreases k,
{
    if k == 0 {
        1
    } else {
        10 * pow10((k - 1) as nat)
    }
}

/// The number of decimal digits of `a` (none for zero).
pub open spec fn num_digits(a: nat) -> nat
    decreases a,
{
    if a == 0 {
        0
    } else {
        1 + num_digits(a / 10)
    }
}

/// `a / p` rounded to the nearest integer, halves up (`p > 0`).
pub open spec fn round_half_up(a: nat, p: nat) -> nat {
    if 2 * (a % p) >= p {
        a / p + 1
    } else {
        a / p
    }
}

/// `a` rounded to 15 significant digits, as the significant digits and
/// the power of ten that follows them.
pub open spec fn sig15(a: nat) -> (nat, nat) {
    let d = num_digits(a);
    if d <= 15 {
        (a, 0)
    } else {
        let k = (d - 15) as nat;
        let q = round_half_up(a, pow10(k));
        if q == pow10(15) {
            (pow10(14), k + 1)
        } else {
            (q, k)
        }
    }
}

/// Two numbers agree to 15 significant digits.
pub open spec fn same_to_15_digits(x: Number, y: Number) -> bool {
    &&& (x.scaled < 0) == (y.scaled < 0) || (x.scaled == 0 && y.scaled == 0)
    &&& sig15(crate::number::abs_int(x.scaled as int)) == sig15(crate::number::abs_int(y.scaled as int))
}

fn pow10_exec(k: u32) -> (p: u128)
    requires
        k <= 38,
    ensures
        p == pow10(k as nat),
        p >= 1,
{
    proof {
        lemma_pow10_mono(0, 38);
        lemma_pow10_38();
    }
    let mut p: u128 = 1;
    let mut i: u32 = 0;
    while i < k
        invariant
            i <= k <= 38,
            p == pow10(i as nat),
            p >= 1,
            pow10(38) == 100_000_000_000_000_000_000_000_000_000_000_000_000nat,
        decreases k - i,
    {
        proof {
            lemma_pow10_mono(i as nat + 1, 38);
        }
        p = p * 10;
        i += 1;
    }
    p
}

proof fn lemma_pow10_38()
    ensures
        pow10(38) == 100_000_000_000_000_000_000_000_000_000_000_000_000nat,
{
    reveal_with_fuel(pow10, 39);
}

proof fn lemma_pow10_mono(i: nat, j: nat)
    requires
        i <= j,
    ensures
        1 <= pow10(i) <= pow10(j),
    decreases j,
{
    lemma_pow10_pos(i);
    if i < j {
        lemma_pow10_mono(i, (j - 1) as nat);
    }
}

proof fn lemma_pow10_pos(k: nat)
    ensures
        pow10(k) >= 1,
    decreases k,
{
    if k > 0 {
        lemma_pow10_pos((k - 1) as nat);
    }
}

proof fn lemma_digits_bound(a: nat, d: nat)
    requires
        a < pow10(d),
    ensures
        num_digits(a) <= d,
    decreases a,
{
    if a > 0 {
        assert(d > 0);
        assert(a / 10 < pow10((d - 1) as nat)) by (nonlinear_arith)
            requires
                a < pow10(d),
                pow10(d) == 10 * pow10((d - 1) as nat),
        ;
        lemma_digits_bound(a / 10, (d - 1) as nat);
    }
}

fn digits_exec(a: u128) -> (d: u32)
    ensures
        d == num_digits(a as nat),
        d <= 39,
{
    let mut x: u128 = a;
    let mut d: u32 = 0;
    proof {
        assert(pow10(39) == 1_000_000_000_000_000_000_000_000_000_000_000_000_000nat) by {
            reveal_with_fuel(pow10, 40);
        }
        lemma_digits_bound(a as nat, 39);
    }
    while x > 0
        invariant
            d + num_digits(x as nat) == num_digits(a as nat),
            num_digits(a as nat) <= 39,
        decreases x,
    {
        x = x / 10;
        d += 1;
    }
    d
}

fn sig15_exec(a: u128) -> (r: (u128, u32))
    ensures
        r.0 as nat == sig15(a as nat).0,
        r.1 as nat == sig15(a as nat).1,
{
    let d = digits_exec(a);
    if d <= 15 {
        return (a, 0);
    }
    let k = d - 15;
    let p = pow10_exec(k);
    let q0 = a / p;
    let rem = a % p;
    proof {
        lemma_pow10_mono(1, k as nat);
        reveal_with_fuel(pow10, 2);
    }
    assert(q0 < u128::MAX) by (nonlinear_arith)
        requires
            q0 == a / p,
            p >= 10,
            a <= u128::MAX,
    ;
    let q = if rem >= p - rem {
        q0 + 1
    } else {
        q0
    };
    let top = pow10_exec(15);
    if q == top {
        (pow10_exec(14), k + 1)
    } else {
        (q, k)
    }
}

fn magnitude(x: i128) -> (a: u128)
    ensures
        a as int == crate::number::abs_int(x as int),
{
    if x == i128::MIN {
        (i128::MAX as u128) + 1
    } else if x < 0 {
        (-x) as u128
    } else {
        x as u128
    }
}

/// Whether two numbers agree to 15 significant digits.
pub fn same_to_15_digits_exec(x: Number, y: Number) -> (b: bool)
    ensures
        b == same_to_15_digits(x, y),
{
    let same_sign = (x.scaled < 0) == (y.scaled < 0) || (x.scaled == 0 && y.scaled == 0);
    let (qx, kx) = sig15_exec(magnitude(x.scaled));
    let (qy, ky) = sig15_exec(magnitude(y.scaled));
    same_sign && qx == qy && kx == ky
}

/// What EXACT reads a value as when not both are numbers.
pub open spec fn exact_text(c: CalcResult) -> Result<Seq<char>, ErrorKind> {
    text_value(c)
}

impl Model {
    /// EXACT(text1, text2): two numbers are the same when they agree to 15
    /// significant digits; otherwise both values are read as text (an error
    /// in the first, then in the second, is returned) and compared exactly,
    /// case included.
    pub fn fn_exact(&self, first: &CalcResult, second: &CalcResult) -> (r: CalcResult)
        ensures
            match (*first, *second) {
                (CalcResult::Number(x), CalcResult::Number(y)) => r == CalcResult::Boolean(same_to_15_digits(x, y)),
                _ => match (exact_text(*first), exact_text(*second)) {
                    (Err(e), _) => is_error(r, e),
                    (Ok(_), Err(e)) => is_error(r, e),
                    (Ok(s), Ok(t)) => r == CalcResult::Boolean(s == t),
                },
            },
    {
        if let (CalcResult::Number(x), CalcResult::Number(y)) = (first, second) {
            return CalcResult::Boolean(same_to_15_digits_exec(*x, *y));
        }
        let s = match text_argument(first) {
            Err(e) => return CalcResult::Error(e),
            Ok(v) => v,
        };
        let t = match text_argument(second) {
            Err(e) => return CalcResult::Error(e),
            Ok(v) => v,
        };
        CalcResult::Boolean(crate::strings::same_chars(&s, &t))
    }
}


/// `s` without any `c`.
pub open spec fn without_char(s: Seq<char>, c: char) -> Seq<char>
    decreases s.len(),
{
    if s.len() == 0 {
        seq![]
    } else if s.last() == c {
        without_char(s.drop_last(), c)
    } else {
        without_char(s.drop_last(), c).push(s.last())
    }
}

/// `s` with every `from` replaced by `to`.
pub open spec fn replace_char(s: Seq<char>, from: char, to: char) -> Seq<char> {
    s.map_values(|x: char| if x == from { to } else { x })
}

/// `s` without the run of `c` at its end.
pub open spec fn strip_trailing(s: Seq<char>, c: char) -> Seq<char>
    decreases s.len(),
{
    if s.len() > 0 && s.last() == c {
        strip_trailing(s.drop_last(), c)
    } else {
        s
    }
}

/// The first character of a separator argument, if it has one.
pub open spec fn separator_char(sep: Option<Seq<char>>) -> Option<char> {
    match sep {
        Some(t) => if t.len() > 0 {
            Some(t[0])
        } else {
            None
        },
        None => None,
    }
}

/// The text NUMBERVALUE reads, before the `%` check: trimmed, without the
/// group separator, the decimal separator turned into a point.
pub open spec fn numbervalue_text(text: Seq<char>, decimal: Option<Seq<char>>, group: Option<Seq<char>>) -> Seq<char> {
    let t = trimmed(text);
    let a = match separator_char(group) {
        Some(g) => without_char(t, g),
        None => t,
    };
    let d = match separator_char(decimal) {
        Some(c) => c,
        None => '.',
    };
    if d != '.' {
        replace_char(a, d, '.')
    } else {
        a
    }
}

fn first_char(sep: Option<&str>) -> (r: Option<char>)
    ensures
        r == separator_char(
            match sep {
                Some(t) => Some(t@),
                None => None,
            },
        ),
{
    match sep {
        Some(t) => {
            let v = chars_of(t);
            if v.len() > 0 {
                Some(v[0])
            } else {
                None
            }
        },
        None => None,
    }
}

/// NUMBERVALUE's reading of a text: the text to read as a number (see
/// `numbervalue_text`, with a trailing run of `%` removed) and whether it
/// ended in `%`, which divides the number by 100.
pub fn numbervalue_cleaned(text: &str, decimal_separator: Option<&str>, group_separator: Option<&str>) -> (r: (
    String,
    bool,
))
    ensures
        ({
            let b = numbervalue_text(
                text@,
                match decimal_separator {
                    Some(t) => Some(t@),
                    None => None,
                },
                match group_separator {
                    Some(t) => Some(t@),
                    None => None,
                },
            );
            &&& r.1 == (b.len() > 0 && b.last() == '%')
            &&& r.0@ == if r.1 {
                strip_trailing(b, '%')
            } else {
                b
            }
        }),
{
    let t = trim_chars(&chars_of(text));
    let g = first_char(group_separator);
    let d = match first_char(decimal_separator) {
        Some(c) => c,
        None => '.',
    };
    let mut a: Vec<char> = Vec::new();
    let mut i: usize = 0;
    while i < t.len()
        invariant
            i <= t.len(),
            a@ == match g {
                Some(c) => without_char(t@.take(i as int), c),
                None => t@.take(i as int),
            },
        decreases t.len() - i,
    {
        let c = t[i];
        assert(t@.take(i as int + 1).drop_last() =~= t@.take(i as int));
        let keep = match g {
            Some(gc) => c != gc,
            None => true,
        };
        if keep {
            a.push(c);
        }
        assert(t@.take(i as int + 1).last() == c);
        assert(a@ =~= match g {
            Some(gc) => without_char(t@.take(i as int + 1), gc),
            None => t@.take(i as int + 1),
        });
        i += 1;
    }
    assert(t@.take(t.len() as int) =~= t@);
    let mut b: Vec<char> = Vec::new();
    let mut j: usize = 0;
    while j < a.len()
        invariant
            j <= a.len(),
            b.len() == j,
            forall|k: int| 0 <= k < j ==> #[trigger] b@[k] == if d != '.' && a@[k] == d {
                '.'
            } else {
                a@[k]
            },
        decreases a.len() - j,
    {
        if d != '.' && a[j] == d {
            b.push('.');
        } else {
            b.push(a[j]);
        }
        j += 1;
    }
    let ghost cleaned = if d != '.' {
        replace_char(a@, d, '.')
    } else {
        a@
    };
    assert(b@ =~= cleaned);
    let percent = b.len() > 0 && b[b.len() - 1] == '%';
    if percent {
        while b.len() > 0 && b[b.len() - 1] == '%'
            invariant
                strip_trailing(cleaned, '%') == strip_trailing(b@, '%'),
            decreases b.len(),
        {
            let ghost before = b@;
            b.pop();
            assert(b@ =~= before.drop_last());
        }
    }
    (string_of(&b), percent)
}

} // verus!
