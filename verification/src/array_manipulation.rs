//! The SQL-like and reshaping functions GROUPBY, PIVOTBY, TOCOL and TOROW,
//! and the simpler forms of WRAPROWS, WRAPCOLS, EXPAND and TEXTSPLIT that
//! pad with zero and split on every delimiter.
use vstd::prelude::*;

use crate::dynamic_arrays::{text_nodes, wrap_cols, wrap_cols_grid, wrap_rows, wrap_rows_grid};
use crate::model::{Model, is_array, is_error};
use crate::number::{Number, spec_to_usize};
use crate::strings::{chars_of, string_of};
use crate::textutil::{pieces_view, split, split_chars};
use crate::values::{
    ArrayNode, CalcResult, ErrorKind, Grid, NodeV, clone_grid, flatten, flatten_grid, grid_view,
    nodes_view, row_view, single,
};

verus! {

impl Model {
    /// GROUPBY(row_fields, values, function): fewer than three arguments are
    /// a wrong number of arguments (`#ERROR!`); the grouping itself is not
    /// available and gives `#CALC!`.
    pub fn fn_groupby(&self, args: &Vec<CalcResult>) -> (r: CalcResult)
        ensures
            args.len() < 3 ==> is_error(r, ErrorKind::Error),
            args.len() >= 3 ==> is_error(r, ErrorKind::Calc),
    {
        if args.len() < 3 {
            return CalcResult::Error(ErrorKind::Error);
        }
        CalcResult::Error(ErrorKind::Calc)
    }

    /// PIVOTBY(row_fields, col_fields, values, function): fewer than four
    /// arguments are a wrong number of arguments (`#ERROR!`); the pivot
    /// itself is not available and gives `#CALC!`.
    pub fn fn_pivotby(&self, args: &Vec<CalcResult>) -> (r: CalcResult)
        ensures
            args.len() < 4 ==> is_error(r, ErrorKind::Error),
            args.len() >= 4 ==> is_error(r, ErrorKind::Calc),
    {
        if args.len() < 4 {
            return CalcResult::Error(ErrorKind::Error);
        }
        CalcResult::Error(ErrorKind::Calc)
    }
}

/// The elements of an array, each in a row of its own, in row order.
pub open spec fn as_column(items: Seq<NodeV>) -> Seq<Seq<NodeV>> {
    Seq::new(items.len(), |i: int| seq![items[i]])
}

impl Model {
    /// TOCOL(array): the elements of an array as one column, row by row; a
    /// single number or text as a one-by-one array; an error stays the error,
    /// anything else is `#VALUE!`.
    pub fn fn_tocol(&self, array: &CalcResult) -> (r: CalcResult)
        ensures
            match *array {
                CalcResult::Array(a) => is_array(r, as_column(flatten(grid_view(a)))),
                CalcResult::Number(n) => is_array(r, seq![seq![NodeV::Number(n)]]),
                CalcResult::Text(s) => is_array(r, seq![seq![NodeV::Text(s@)]]),
                CalcResult::Error(e) => is_error(r, e),
                _ => is_error(r, ErrorKind::Value),
            },
    {
        match array {
            CalcResult::Array(a) => {
                let flat = flatten_grid(a);
                let ghost items = nodes_view(flat@);
                let mut out: Grid = Vec::new();
                let mut i: usize = 0;
                while i < flat.len()
                    invariant
                        i <= flat.len(),
                        items == nodes_view(flat@),
                        out.len() == i,
                        forall|m: int| 0 <= m < i ==> #[trigger] row_view(out@[m]) == seq![items[m]],
                    decreases flat.len() - i,
                {
                    let mut one: Vec<ArrayNode> = Vec::new();
                    one.push(flat[i].clone());
                    assert(row_view(one) =~= seq![items[i as int]]);
                    out.push(one);
                    i += 1;
                }
                assert(grid_view(out) =~= as_column(items));
                CalcResult::Array(out)
            },
            CalcResult::Number(n) => CalcResult::Array(single(ArrayNode::Number(*n))),
            CalcResult::Text(s) => CalcResult::Array(single(ArrayNode::Text(s.clone()))),
            CalcResult::Error(e) => CalcResult::Error(*e),
            _ => CalcResult::Error(ErrorKind::Value),
        }
    }

    /// TOROW(array): the elements of an array as one row, row by row; a
    /// single number or text as a one-by-one array; an error stays the error,
    /// anything else is `#VALUE!`.
    pub fn fn_torow(&self, array: &CalcResult) -> (r: CalcResult)
        ensures
            match *array {
                CalcResult::Array(a) => is_array(r, seq![flatten(grid_view(a))]),
                CalcResult::Number(n) => is_array(r, seq![seq![NodeV::Number(n)]]),
                CalcResult::Text(s) => is_array(r, seq![seq![NodeV::Text(s@)]]),
                CalcResult::Error(e) => is_error(r, e),
                _ => is_error(r, ErrorKind::Value),
            },
    {
        match array {
            CalcResult::Array(a) => {
                let flat = flatten_grid(a);
                let ghost items = row_view(flat);
                let mut out: Grid = Vec::new();
                out.push(flat);
                assert(grid_view(out) =~= seq![items]);
                CalcResult::Array(out)
            },
            CalcResult::Number(n) => CalcResult::Array(single(ArrayNode::Number(*n))),
            CalcResult::Text(s) => CalcResult::Array(single(ArrayNode::Text(s.clone()))),
            CalcResult::Error(e) => CalcResult::Error(*e),
            _ => CalcResult::Error(ErrorKind::Value),
        }
    }
}

/// The zero that the simpler reshaping functions pad with.
pub open spec fn zero() -> NodeV {
    NodeV::Number(Number { scaled: 0 })
}

/// The elements the simpler WRAPROWS and WRAPCOLS read: those of an array,
/// row by row, or a single number; an error stays the error, anything else
/// is `#VALUE!`.
pub open spec fn wrap_values(c: CalcResult) -> Result<Seq<NodeV>, ErrorKind> {
    match c {
        CalcResult::Array(a) => Ok(flatten(grid_view(a))),
        CalcResult::Number(n) => Ok(seq![NodeV::Number(n)]),
        CalcResult::Error(e) => Err(e),
        _ => Err(ErrorKind::Value),
    }
}

fn wrap_values_exec(c: &CalcResult) -> (r: Result<Vec<ArrayNode>, ErrorKind>)
    ensures
        match r {
            Ok(v) => wrap_values(*c) == Ok::<Seq<NodeV>, ErrorKind>(nodes_view(v@)),
            Err(e) => wrap_values(*c) == Err::<Seq<NodeV>, ErrorKind>(e),
        },
{
    match c {
        CalcResult::Array(a) => Ok(flatten_grid(a)),
        CalcResult::Number(n) => {
            let mut v: Vec<ArrayNode> = Vec::new();
            v.push(ArrayNode::Number(*n));
            assert(nodes_view(v@) =~= seq![NodeV::Number(*n)]);
            Ok(v)
        },
        CalcResult::Error(e) => Err(*e),
        _ => Err(ErrorKind::Value),
    }
}

/// The simpler WRAPCOLS can count its columns without overflow.
pub open spec fn zero_wrapcols_fits(array: CalcResult, wrap_count: Number) -> bool {
    match wrap_values(array) {
        Ok(v) => v.len() + spec_to_usize(wrap_count) - 1 <= usize::MAX,
        Err(_) => true,
    }
}

/// WRAPROWS(vector, wrap_count) in its simpler form: a count of zero (the
/// number truncated toward zero) is `#VALUE!`; otherwise the elements (see
/// `wrap_values`) row by row in rows of `wrap_count`, the last row padded
/// with zero.
pub fn fn_wraprows(array: &CalcResult, wrap_count: Number) -> (r: CalcResult)
    ensures
        if spec_to_usize(wrap_count) == 0 {
            is_error(r, ErrorKind::Value)
        } else {
            match wrap_values(*array) {
                Err(e) => is_error(r, e),
                Ok(v) => is_array(r, wrap_rows_grid(v, spec_to_usize(wrap_count), zero())),
            }
        },
{
    let w = wrap_count.to_usize();
    if w == 0 {
        return CalcResult::Error(ErrorKind::Value);
    }
    match wrap_values_exec(array) {
        Err(e) => CalcResult::Error(e),
        Ok(v) => {
            let pad = ArrayNode::Number(Number::from_scaled(0));
            CalcResult::Array(wrap_rows(&v, w, &pad))
        },
    }
}

/// WRAPCOLS(vector, wrap_count) in its simpler form: a count of zero is
/// `#VALUE!`; otherwise the elements column by column in `wrap_count` rows,
/// the last column padded with zero.
pub fn fn_wrapcols(array: &CalcResult, wrap_count: Number) -> (r: CalcResult)
    requires
        zero_wrapcols_fits(*array, wrap_count),
    ensures
        if spec_to_usize(wrap_count) == 0 {
            is_error(r, ErrorKind::Value)
        } else {
            match wrap_values(*array) {
                Err(e) => is_error(r, e),
                Ok(v) => is_array(r, wrap_cols_grid(v, spec_to_usize(wrap_count), zero())),
            }
        },
{
    let w = wrap_count.to_usize();
    if w == 0 {
        return CalcResult::Error(ErrorKind::Value);
    }
    match wrap_values_exec(array) {
        Err(e) => CalcResult::Error(e),
        Ok(v) => {
            let pad = ArrayNode::Number(Number::from_scaled(0));
            CalcResult::Array(wrap_cols(&v, w, &pad))
        },
    }
}

/// The array the simpler EXPAND grows: an array, a single number as a
/// one-by-one array, anything else a single zero; an error stays the error.
pub open spec fn expand_source(c: CalcResult) -> Result<Seq<Seq<NodeV>>, ErrorKind> {
    match c {
        CalcResult::Array(a) => Ok(grid_view(a)),
        CalcResult::Number(n) => Ok(seq![seq![NodeV::Number(n)]]),
        CalcResult::Error(e) => Err(e),
        _ => Ok(seq![seq![zero()]]),
    }
}

/// `d` cut or grown to `rows` by `cols`, zero wherever `d` has no element.
pub open spec fn resize_grid(d: Seq<Seq<NodeV>>, rows: int, cols: int) -> Seq<Seq<NodeV>> {
    Seq::new(
        rows as nat,
        |i: int|
            Seq::new(
                cols as nat,
                |j: int|
                    if i < d.len() && j < d[i].len() {
                        d[i][j]
                    } else {
                        zero()
                    },
            ),
    )
}

/// EXPAND(array, rows, cols) in its simpler form: the array (see
/// `expand_source`) cut or grown to exactly `rows` by `cols` (truncated
/// toward zero), padded with zero.
pub fn fn_expand(array: &CalcResult, rows: Number, cols: Number) -> (r: CalcResult)
    ensures
        match expand_source(*array) {
            Err(e) => is_error(r, e),
            Ok(d) => is_array(r, resize_grid(d, spec_to_usize(rows), spec_to_usize(cols))),
        },
{
    let source: Grid = match array {
        CalcResult::Array(a) => clone_grid(a),
        CalcResult::Number(n) => single(ArrayNode::Number(*n)),
        CalcResult::Error(e) => {
            return CalcResult::Error(*e);
        },
        _ => single(ArrayNode::Number(Number::from_scaled(0))),
    };
    let ghost d = grid_view(source);
    let tr = rows.to_usize();
    let tc = cols.to_usize();
    let mut result: Grid = Vec::new();
    let mut i: usize = 0;
    while i < tr
        invariant
            d == grid_view(source),
            i <= tr,
            result.len() == i,
            forall|m: int| 0 <= m < i ==> row_view(#[trigger] result@[m]) == resize_grid(d, tr as int, tc as int)[m],
        decreases tr - i,
    {
        let mut row: Vec<ArrayNode> = Vec::new();
        let mut j: usize = 0;
        while j < tc
            invariant
                d == grid_view(source),
                i < tr,
                j <= tc,
                row.len() == j,
                forall|k: int|
                    0 <= k < j ==> #[trigger] row@[k]@ == if i < d.len() && k < d[i as int].len() {
                        d[i as int][k]
                    } else {
                        zero()
                    },
            decreases tc - j,
        {
            if i < source.len() && j < source[i].len() {
                row.push(source[i][j].clone());
            } else {
                row.push(ArrayNode::Number(Number::from_scaled(0)));
            }
            j += 1;
        }
        assert(row_view(row) =~= resize_grid(d, tr as int, tc as int)[i as int]);
        result.push(row);
        i += 1;
    }
    assert(grid_view(result) =~= resize_grid(d, tr as int, tc as int));
    CalcResult::Array(result)
}

/// The pieces `str::split` gives for a text pattern: between the
/// occurrences of a non-empty `d`; for an empty `d`, an empty piece, each
/// character alone, and another empty piece.
pub open spec fn split_any(s: Seq<char>, d: Seq<char>) -> Seq<Seq<char>> {
    if d.len() == 0 {
        seq![Seq::<char>::empty()] + s.map_values(|c: char| seq![c]) + seq![Seq::<char>::empty()]
    } else {
        split(s, d)
    }
}

fn split_any_exec(s: &Vec<char>, d: &Vec<char>) -> (r: Vec<Vec<char>>)
    ensures
        pieces_view(r@) == split_any(s@, d@),
{
    if d.len() > 0 {
        return split_chars(s, d);
    }
    let mut out: Vec<Vec<char>> = Vec::new();
    out.push(Vec::new());
    let mut i: usize = 0;
    while i < s.len()
        invariant
            i <= s.len(),
            out.len() == i + 1,
            out@[0]@.len() == 0,
            forall|m: int| 0 <= m < i ==> #[trigger] out@[m + 1]@ == seq![s@[m]],
        decreases s.len() - i,
    {
        let mut one: Vec<char> = Vec::new();
        one.push(s[i]);
        assert(one@ =~= seq![s@[i as int]]);
        out.push(one);
        i += 1;
    }
    out.push(Vec::new());
    let ghost want = split_any(s@, d@);
    assert(want.len() == s.len() + 2);
    assert forall|k: int| 0 <= k < out.len() implies #[trigger] pieces_view(out@)[k] =~= want[k] by {
        if k == 0 {
            assert(out@[0]@.len() == 0);
        } else if k == s.len() + 1 {
            assert(out@[k]@.len() == 0);
        } else {
            assert(out@[(k - 1) + 1]@ == seq![s@[k - 1]]);
        }
    }
    assert(pieces_view(out@) =~= want);
    out
}

/// The lines of the simpler TEXTSPLIT: the text cut at the row delimiter,
/// or the whole text when there is none.
pub open spec fn split_lines_any(text: Seq<char>, rd: Option<Seq<char>>) -> Seq<Seq<char>> {
    match rd {
        Some(d) => split_any(text, d),
        None => seq![text],
    }
}

/// TEXTSPLIT(text, col_delimiter, [row_delimiter]) in its simpler form: the
/// text cut into lines at the row delimiter and each line into pieces at the
/// column delimiter, as `str::split` cuts them (see `split_any`), with no
/// padding of short rows.
pub fn fn_textsplit(text: &str, col_delimiter: &str, row_delimiter: Option<&str>) -> (r: CalcResult)
    ensures
        ({
            let lines = split_lines_any(
                text@,
                match row_delimiter {
                    Some(d) => Some(d@),
                    None => None,
                },
            );
            is_array(r, Seq::new(lines.len(), |i: int| text_nodes(split_any(lines[i], col_delimiter@))))
        }),
{
    let t = chars_of(text);
    let cd = chars_of(col_delimiter);
    let lines: Vec<Vec<char>> = match row_delimiter {
        Some(rd) => {
            let d = chars_of(rd);
            split_any_exec(&t, &d)
        },
        None => {
            let mut one: Vec<Vec<char>> = Vec::new();
            one.push(t);
            assert(pieces_view(one@) =~= seq![text@]);
            one
        },
    };
    let ghost ls = pieces_view(lines@);
    let mut result: Grid = Vec::new();
    let mut i: usize = 0;
    while i < lines.len()
        invariant
            i <= lines.len(),
            ls == pieces_view(lines@),
            result.len() == i,
            forall|m: int| 0 <= m < i ==> row_view(#[trigger] result@[m]) == text_nodes(split_any(ls[m], cd@)),
        decreases lines.len() - i,
    {
        let pieces = split_any_exec(&lines[i], &cd);
        let mut row: Vec<ArrayNode> = Vec::new();
        let mut j: usize = 0;
        while j < pieces.len()
            invariant
                j <= pieces.len(),
                row.len() == j,
                forall|k: int| 0 <= k < j ==> #[trigger] row@[k]@ == NodeV::Text(pieces@[k]@),
            decreases pieces.len() - j,
        {
            row.push(ArrayNode::Text(string_of(&pieces[j])));
            j += 1;
        }
        assert(row_view(row) =~= text_nodes(pieces_view(pieces@)));
        result.push(row);
        i += 1;
    }
    assert(grid_view(result) =~= Seq::new(ls.len(), |i: int| text_nodes(split_any(ls[i], cd@))));
    CalcResult::Array(result)
}

} // verus!
