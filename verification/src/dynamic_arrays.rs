use vstd::prelude::*;

use crate::compare::{
    Order, nodes_equal, compare_nodes, lemma_compare_reverse,
    lemma_compare_trans, lemma_rows_equal_equivalence, opt_view, orderable, rows_equal,
};
use crate::model::{Model, is_array, is_error, is_number, is_text};
use crate::strings::{chars_of, lowercase, string_of, to_lowercase};
use crate::wildcard::{wild_full, wild_full_exec, wild_tokens, wild_tokens_exec};
use crate::textutil::{pieces_view, slice_chars, split, split_chars};
use crate::number::{Number, SCALE, spec_to_i32, spec_to_usize};
use crate::values::{flatten, flatten_grid};
use crate::values::{
    nodes_view, result_node, spec_to_flat,
    clone_grid, ArrayNode, CalcResult, ErrorKind, Grid, NodeV, grid_view, row_view,
    spec_to_grid,
};

verus! {

/// The elements in column `c` of the first `n` rows, skipping rows too
/// short to have one.
pub open spec fn column(g: Seq<Seq<NodeV>>, c: int, n: int) -> Seq<NodeV>
    decreases n,
{
    if n <= 0 {
        seq![]
    } else if c < g[n - 1].len() {
        column(g, c, n - 1).push(g[n - 1][c])
    } else {
        column(g, c, n - 1)
    }
}

/// Rows become columns: one row per column of the first row.
pub open spec fn transpose(g: Seq<Seq<NodeV>>) -> Seq<Seq<NodeV>> {
    if g.len() == 0 {
        seq![]
    } else {
        Seq::new(g[0].len(), |c: int| column(g, c, g.len() as int))
    }
}

/// Every row has `w` elements.
pub open spec fn rectangular(g: Seq<Seq<NodeV>>, w: int) -> bool {
    forall|r: int| 0 <= r < g.len() ==> #[trigger] g[r].len() == w
}

proof fn lemma_column_full(g: Seq<Seq<NodeV>>, c: int, n: int)
    requires
        0 <= n <= g.len(),
        forall|r: int| 0 <= r < n ==> c < #[trigger] g[r].len(),
    ensures
        column(g, c, n) == Seq::new(n as nat, |r: int| g[r][c]),
    decreases n,
{
    if n > 0 {
        lemma_column_full(g, c, n - 1);
        assert(column(g, c, n) =~= Seq::new(n as nat, |r: int| g[r][c]));
    } else {
        assert(column(g, c, n) =~= Seq::new(n as nat, |r: int| g[r][c]));
    }
}

/// Transposing an array whose rows all have the same, non-zero, number of
/// elements twice gives the array back.
pub proof fn lemma_transpose_involution(g: Seq<Seq<NodeV>>, w: int)
    requires
        g.len() > 0,
        w > 0,
        rectangular(g, w),
    ensures
        transpose(transpose(g)) == g,
        rectangular(transpose(g), g.len() as int),
        transpose(g).len() == w,
{
    let t = transpose(g);
    assert forall|c: int| 0 <= c < w implies #[trigger] t[c] == Seq::new(
        g.len(),
        |r: int| g[r][c],
    ) by {
        lemma_column_full(g, c, g.len() as int);
    }
    assert forall|r: int| 0 <= r < g.len() implies #[trigger] transpose(t)[r] == g[r] by {
        lemma_column_full(t, r, w);
        assert(transpose(t)[r] =~= g[r]);
    }
    assert(transpose(t) =~= g);
}

impl Model {
    /// Rows become columns (`transpose_2d`).
    pub fn transpose_2d(data: &Grid) -> (r: Grid)
        ensures
            grid_view(r) == transpose(grid_view(*data)),
    {
        let ghost g = grid_view(*data);
        if data.len() == 0 {
            let r: Grid = Vec::new();
            assert(grid_view(r) =~= transpose(g));
            return r;
        }
        let rows = data.len();
        let cols = data[0].len();
        let mut result: Grid = Vec::new();
        let mut c: usize = 0;
        while c < cols
            invariant
                c <= cols,
                rows == data.len(),
                rows > 0,
                cols == g[0].len(),
                g == grid_view(*data),
                result.len() == c,
                forall|k: int| 0 <= k < c ==> row_view(#[trigger] result@[k]) == column(g, k, rows as int),
            decreases cols - c,
        {
            let mut new_row: Vec<ArrayNode> = Vec::new();
            let mut r: usize = 0;
            while r < rows
                invariant
                    r <= rows,
                    rows == data.len(),
                    c < cols,
                    g == grid_view(*data),
                    row_view(new_row) == column(g, c as int, r as int),
                decreases rows - r,
            {
                if c < data[r].len() {
                    new_row.push(data[r][c].clone());
                    assert(row_view(new_row) =~= column(g, c as int, r as int + 1));
                }
                r += 1;
            }
            result.push(new_row);
            c += 1;
        }
        assert(grid_view(result) =~= transpose(g));
        result
    }
}


/// The numbers `start`, `start + step`, ... laid out row by row in
/// `rows` rows of `cols` columns (values are scaled units).
pub open spec fn sequence_grid(rows: int, cols: int, start: int, step: int) -> Seq<Seq<NodeV>> {
    Seq::new(
        rows as nat,
        |r: int|
            Seq::new(
                cols as nat,
                |c: int| NodeV::Number(Number { scaled: (start + (r * cols + c) * step) as i128 }),
            ),
    )
}

/// Every value of the sequence, and the one after it, fits in a number (a
/// bound of the billionths a number is held in).
pub open spec fn sequence_fits(rows: Number, columns: Option<Number>, start: Option<Number>, step: Option<Number>) -> bool {
    let r = spec_to_i32(rows);
    let c = match columns {
        Some(n) => spec_to_i32(n),
        None => 1,
    };
    let s = match start {
        Some(n) => n.scaled as int,
        None => SCALE as int,
    };
    let d = match step {
        Some(n) => n.scaled as int,
        None => SCALE as int,
    };
    r >= 1 && c >= 1 ==> crate::number::abs_int(s) + r * c * crate::number::abs_int(d) <= i128::MAX
}


/// The size of `x`, without sign.
fn magnitude(x: i128) -> (r: u128)
    ensures
        r == crate::number::abs_int(x as int),
{
    if x < 0 {
        ((0 - (x + 1)) as u128) + 1
    } else {
        x as u128
    }
}

proof fn lemma_sequence_bound(k: int, n: int, s: int, d: int)
    requires
        0 <= k <= n,
        crate::number::abs_int(s) + n * crate::number::abs_int(d) <= i128::MAX,
    ensures
        i128::MIN < s + k * d <= i128::MAX,
{
    let ad = crate::number::abs_int(d) as int;
    assert(k * ad <= n * ad) by (nonlinear_arith)
        requires
            0 <= k <= n,
            ad >= 0,
    ;
    assert(-(k * ad) <= k * d <= k * ad) by (nonlinear_arith)
        requires
            k >= 0,
            ad == (if d < 0 {
                -d
            } else {
                d
            }),
    ;
}

impl Model {
    /// SEQUENCE(rows, [columns], [start], [step]): an array of `rows` rows
    /// and `columns` columns (default 1) counting from `start` (default 1)
    /// by `step` (default 1), row by row. Fewer than one row or column is
    /// `#VALUE!`. Rows and columns are truncated toward zero. A sequence
    /// whose values do not fit in a number is `#NUM!`.
    pub fn fn_sequence(
        &self,
        rows: Number,
        columns: Option<Number>,
        start: Option<Number>,
        step: Option<Number>,
    ) -> (r: CalcResult)
        ensures
            ({
                let nr = spec_to_i32(rows);
                let nc = match columns {
                    Some(n) => spec_to_i32(n),
                    None => 1,
                };
                let s = match start {
                    Some(n) => n.scaled as int,
                    None => SCALE as int,
                };
                let d = match step {
                    Some(n) => n.scaled as int,
                    None => SCALE as int,
                };
                if nr < 1 || nc < 1 {
                    is_error(r, ErrorKind::Value)
                } else if !sequence_fits(rows, columns, start, step) {
                    is_error(r, ErrorKind::Num)
                } else {
                    is_array(r, sequence_grid(nr, nc, s, d))
                }
            }),
    {
        let nrows = rows.to_i32();
        if nrows < 1 {
            return CalcResult::Error(ErrorKind::Value);
        }
        let ncols = match columns {
            Some(n) => n.to_i32(),
            None => 1,
        };
        if ncols < 1 {
            return CalcResult::Error(ErrorKind::Value);
        }
        let first = match start {
            Some(n) => n.scaled,
            None => 1_000_000_000,
        };
        let delta = match step {
            Some(n) => n.scaled,
            None => 1_000_000_000,
        };
        let abs_first = magnitude(first);
        let abs_delta = magnitude(delta);
        let nr_wide = nrows as u128;
        let nc_wide = ncols as u128;
        assert(nr_wide * nc_wide <= 0x8000_0000 * 0x8000_0000) by (nonlinear_arith)
            requires
                nr_wide <= 0x8000_0000,
                nc_wide <= 0x8000_0000,
        ;
        let cells = nr_wide * nc_wide;
        let fits = match cells.checked_mul(abs_delta) {
            Some(span) => match abs_first.checked_add(span) {
                Some(reach) => reach <= i128::MAX as u128,
                None => false,
            },
            None => false,
        };
        if !fits {
            return CalcResult::Error(ErrorKind::Num);
        }
        let ghost total = nrows * ncols;
        let ghost g = sequence_grid(nrows as int, ncols as int, first as int, delta as int);
        let mut result: Grid = Vec::new();
        let mut value: i128 = first;
        let mut r: i32 = 0;
        proof {
            lemma_sequence_bound(0, total, first as int, delta as int);
        }
        while r < nrows
            invariant
                0 <= r <= nrows,
                nrows >= 1,
                ncols >= 1,
                total == nrows * ncols,
                crate::number::abs_int(first as int) + total * crate::number::abs_int(delta as int)
                    <= i128::MAX,
                value == first + (r * ncols) * delta,
                r * ncols <= total,
                g == sequence_grid(nrows as int, ncols as int, first as int, delta as int),
                result.len() == r,
                forall|k: int| 0 <= k < r ==> row_view(#[trigger] result@[k]) == g[k],
            decreases nrows - r,
        {
            let mut row_data: Vec<ArrayNode> = Vec::new();
            let mut c: i32 = 0;
            while c < ncols
                invariant
                    0 <= c <= ncols,
                    0 <= r < nrows,
                    ncols >= 1,
                    total == nrows * ncols,
                    crate::number::abs_int(first as int) + total * crate::number::abs_int(
                        delta as int,
                    ) <= i128::MAX,
                    value == first + (r * ncols + c) * delta,
                    r * ncols + c <= total,
                    g == sequence_grid(nrows as int, ncols as int, first as int, delta as int),
                    row_data.len() == c,
                    forall|k: int|
                        0 <= k < c ==> #[trigger] row_data@[k]@ == NodeV::Number(
                            Number { scaled: (first + (r * ncols + k) * delta) as i128 },
                        ),
                decreases ncols - c,
            {
                row_data.push(ArrayNode::Number(Number { scaled: value }));
                let ghost k = r * ncols + c;
                assert(k + 1 <= total) by (nonlinear_arith)
                    requires
                        k == r * ncols + c,
                        0 <= r < nrows,
                        0 <= c < ncols,
                        total == nrows * ncols,
                ;
                proof {
                    lemma_sequence_bound(k + 1, total, first as int, delta as int);
                }
                assert((k + 1) * delta == k * delta + delta) by (nonlinear_arith);
                value = value + delta;
                c += 1;
            }
            assert(row_view(row_data) =~= g[r as int]);
            result.push(row_data);
            assert((r + 1) * ncols == r * ncols + ncols) by (nonlinear_arith);
            r += 1;
        }
        assert(grid_view(result) =~= g);
        CalcResult::Array(result)
    }
}


/// Whether an selector flag selects its row or column: TRUE, or a non-zero number.
pub open spec fn truthy(n: NodeV) -> bool {
    match n {
        NodeV::Boolean(b) => b,
        NodeV::Number(x) => x.scaled != 0,
        _ => false,
    }
}

/// The number of elements in the first row (zero for no rows).
pub open spec fn width(g: Seq<Seq<NodeV>>) -> int {
    if g.len() == 0 {
        0
    } else {
        g[0].len() as int
    }
}

/// The first `n` rows of `a` whose selector row starts with a selecting flag.
pub open spec fn keep_rows(a: Seq<Seq<NodeV>>, inc: Seq<Seq<NodeV>>, n: int) -> Seq<Seq<NodeV>>
    decreases n,
{
    if n <= 0 {
        seq![]
    } else if n - 1 < inc.len() && inc[n - 1].len() > 0 && truthy(inc[n - 1][0]) {
        keep_rows(a, inc, n - 1).push(a[n - 1])
    } else {
        keep_rows(a, inc, n - 1)
    }
}

/// The first `n` elements of `row` whose flag selects them.
pub open spec fn keep_cols_row(row: Seq<NodeV>, flags: Seq<NodeV>, n: int) -> Seq<NodeV>
    decreases n,
{
    if n <= 0 {
        seq![]
    } else if n - 1 < flags.len() && truthy(flags[n - 1]) {
        keep_cols_row(row, flags, n - 1).push(row[n - 1])
    } else {
        keep_cols_row(row, flags, n - 1)
    }
}

/// The first `n` rows of `a` with only their selected columns, leaving
/// out rows where nothing is selected.
pub open spec fn keep_cols(a: Seq<Seq<NodeV>>, flags: Seq<NodeV>, n: int) -> Seq<Seq<NodeV>>
    decreases n,
{
    if n <= 0 {
        seq![]
    } else {
        let kept = keep_cols_row(a[n - 1], flags, a[n - 1].len() as int);
        if kept.len() > 0 {
            keep_cols(a, flags, n - 1).push(kept)
        } else {
            keep_cols(a, flags, n - 1)
        }
    }
}

/// What FILTER keeps of `a` under `inc`: rows when `inc` is a column as tall
/// as `a` or has the shape of `a`, columns when `inc` is a row as wide as
/// `a`; `#VALUE!` for any other shape.
pub open spec fn spec_filter(a: Seq<Seq<NodeV>>, inc: Seq<Seq<NodeV>>) -> Result<Seq<Seq<NodeV>>, ErrorKind> {
    if a.len() == 0 {
        Ok(seq![])
    } else if inc.len() == a.len() && width(inc) == 1 {
        Ok(keep_rows(a, inc, a.len() as int))
    } else if inc.len() == 1 && width(inc) == width(a) {
        Ok(keep_cols(a, inc[0], a.len() as int))
    } else if inc.len() == a.len() && width(inc) == width(a) {
        Ok(keep_rows(a, inc, a.len() as int))
    } else {
        Err(ErrorKind::Value)
    }
}

/// A filtered array with nothing in it.
pub open spec fn empty_result(s: Seq<Seq<NodeV>>) -> bool {
    s.len() == 0 || (s.len() == 1 && s[0].len() == 0)
}

fn truthy_node(n: &ArrayNode) -> (b: bool)
    ensures
        b == truthy(n@),
{
    match n {
        ArrayNode::Boolean(b) => *b,
        ArrayNode::Number(x) => x.scaled != 0,
        _ => false,
    }
}

fn grid_width(g: &Grid) -> (w: usize)
    ensures
        w == width(grid_view(*g)),
{
    if g.len() == 0 {
        0
    } else {
        g[0].len()
    }
}

fn filter_rows(a: &Grid, inc: &Grid) -> (r: Grid)
    ensures
        grid_view(r) == keep_rows(grid_view(*a), grid_view(*inc), a.len() as int),
{
    let ghost ga = grid_view(*a);
    let ghost gi = grid_view(*inc);
    let mut result: Grid = Vec::new();
    let mut i: usize = 0;
    while i < a.len()
        invariant
            i <= a.len(),
            ga == grid_view(*a),
            gi == grid_view(*inc),
            grid_view(result) == keep_rows(ga, gi, i as int),
        decreases a.len() - i,
    {
        let keep = i < inc.len() && inc[i].len() > 0 && truthy_node(&inc[i][0]);
        if keep {
            result.push(crate::values::clone_row(&a[i]));
            assert(grid_view(result) =~= keep_rows(ga, gi, i as int + 1));
        }
        i += 1;
    }
    result
}

fn filter_cols(a: &Grid, flags: &Vec<ArrayNode>) -> (r: Grid)
    ensures
        grid_view(r) == keep_cols(grid_view(*a), row_view(*flags), a.len() as int),
{
    let ghost ga = grid_view(*a);
    let ghost gf = row_view(*flags);
    let mut result: Grid = Vec::new();
    let mut i: usize = 0;
    while i < a.len()
        invariant
            i <= a.len(),
            ga == grid_view(*a),
            gf == row_view(*flags),
            grid_view(result) == keep_cols(ga, gf, i as int),
        decreases a.len() - i,
    {
        let row = &a[i];
        let mut kept: Vec<ArrayNode> = Vec::new();
        let mut j: usize = 0;
        while j < row.len()
            invariant
                j <= row.len(),
                i < a.len(),
                ga == grid_view(*a),
                gf == row_view(*flags),
                row_view(*row) == ga[i as int],
                row_view(kept) == keep_cols_row(ga[i as int], gf, j as int),
            decreases row.len() - j,
        {
            if j < flags.len() && truthy_node(&flags[j]) {
                kept.push(row[j].clone());
                assert(row_view(kept) =~= keep_cols_row(ga[i as int], gf, j as int + 1));
            }
            j += 1;
        }
        if kept.len() > 0 {
            result.push(kept);
            assert(grid_view(result) =~= keep_cols(ga, gf, i as int + 1));
        }
        i += 1;
    }
    result
}

impl Model {
    /// FILTER(array, selector, [if_empty]): the rows (or columns) of `array`
    /// that `selector` selects; `if_empty`, or `#CALC!` without it, when
    /// nothing is selected; `#VALUE!` when the shapes do not match. An error
    /// in `array`, then in `selector`, is returned as it is.
    pub fn fn_filter(&self, array: &CalcResult, selector: &CalcResult, if_empty: Option<CalcResult>) -> (r: CalcResult)
        ensures
            match (spec_to_grid(*array), spec_to_grid(*selector)) {
                (Err(e), _) => is_error(r, e),
                (Ok(_), Err(e)) => is_error(r, e),
                (Ok(a), Ok(inc)) => match spec_filter(a, inc) {
                    Err(e) => is_error(r, e),
                    Ok(s) => if empty_result(s) {
                        match if_empty {
                            Some(v) => r == v,
                            None => is_error(r, ErrorKind::Calc),
                        }
                    } else {
                        is_array(r, s)
                    },
                },
            },
    {
        let array_data = match Model::calc_result_to_2d_array(array) {
            Ok(d) => d,
            Err(e) => return CalcResult::Error(e),
        };
        let selector_data = match Model::calc_result_to_2d_array(selector) {
            Ok(d) => d,
            Err(e) => return CalcResult::Error(e),
        };
        let ghost ga = grid_view(array_data);
        let ghost gi = grid_view(selector_data);
        if array_data.len() == 0 {
            assert(empty_result(seq![]));
            return match if_empty {
                Some(v) => v,
                None => CalcResult::Error(ErrorKind::Calc),
            };
        }
        let array_rows = array_data.len();
        let array_cols = grid_width(&array_data);
        let selector_rows = selector_data.len();
        let selector_cols = grid_width(&selector_data);
        let filter_by_rows: bool;
        if selector_rows == array_rows && selector_cols == 1 {
            filter_by_rows = true;
        } else if selector_rows == 1 && selector_cols == array_cols {
            filter_by_rows = false;
        } else if selector_rows == array_rows && selector_cols == array_cols {
            filter_by_rows = true;
        } else {
            return CalcResult::Error(ErrorKind::Value);
        }
        let result = if filter_by_rows {
            filter_rows(&array_data, &selector_data)
        } else {
            filter_cols(&array_data, &selector_data[0])
        };
        if result.len() == 0 || (result.len() == 1 && result[0].len() == 0) {
            return match if_empty {
                Some(v) => v,
                None => CalcResult::Error(ErrorKind::Calc),
            };
        }
        CalcResult::Array(result)
    }
}


/// Row `i` is the first of the rows equal to it.
pub open spec fn first_occurrence(d: Seq<Seq<NodeV>>, i: int) -> bool {
    forall|j: int| 0 <= j < i ==> !rows_equal(#[trigger] d[j], d[i])
}

/// No row after row `i` equals it.
pub open spec fn no_later_copy(d: Seq<Seq<NodeV>>, i: int) -> bool {
    forall|j: int| i < j < d.len() ==> !rows_equal(d[i], #[trigger] d[j])
}

/// Row `i` is kept by UNIQUE: it is the first of its kind and, when only
/// rows occurring exactly once are wanted, it has no copy at all.
pub open spec fn unique_keeps(d: Seq<Seq<NodeV>>, once: bool, i: int) -> bool {
    first_occurrence(d, i) && (once ==> no_later_copy(d, i))
}

/// The rows among the first `n` that UNIQUE keeps, in order.
pub open spec fn keep_unique(d: Seq<Seq<NodeV>>, once: bool, n: int) -> Seq<Seq<NodeV>>
    decreases n,
{
    if n <= 0 {
        seq![]
    } else if unique_keeps(d, once, n - 1) {
        keep_unique(d, once, n - 1).push(d[n - 1])
    } else {
        keep_unique(d, once, n - 1)
    }
}

/// What UNIQUE gives for an array: the kept rows (columns when `by_col`),
/// or `#CALC!` when none is kept.
pub open spec fn spec_unique(a: Seq<Seq<NodeV>>, by_col: bool, once: bool) -> Result<Seq<Seq<NodeV>>, ErrorKind> {
    let d = if by_col {
        transpose(a)
    } else {
        a
    };
    let s = keep_unique(d, once, d.len() as int);
    if s.len() == 0 {
        Err(ErrorKind::Calc)
    } else if by_col {
        Ok(transpose(s))
    } else {
        Ok(s)
    }
}

fn unique_rows(d: &Grid, once: bool) -> (r: Grid)
    ensures
        grid_view(r) == keep_unique(grid_view(*d), once, d.len() as int),
{
    let ghost g = grid_view(*d);
    let n = d.len();
    let mut result: Grid = Vec::new();
    let mut i: usize = 0;
    while i < n
        invariant
            i <= n,
            n == d.len(),
            g == grid_view(*d),
            grid_view(result) == keep_unique(g, once, i as int),
        decreases n - i,
    {
        let mut first = true;
        let mut j: usize = 0;
        while j < i
            invariant
                j <= i < n,
                n == d.len(),
                g == grid_view(*d),
                first ==> forall|k: int| 0 <= k < j ==> !rows_equal(#[trigger] g[k], g[i as int]),
                !first ==> !first_occurrence(g, i as int),
            decreases i - j,
        {
            if first && Model::array_rows_equal(&d[j], &d[i]) {
                assert(g[j as int] == row_view(d@[j as int]));
                assert(rows_equal(g[j as int], g[i as int]));
                first = false;
            }
            j += 1;
        }
        let mut keep = first;
        if keep && once {
            let mut k: usize = i + 1;
            while k < n
                invariant
                    i < k <= n,
                    n == d.len(),
                    g == grid_view(*d),
                    keep ==> forall|m: int| i < m < k ==> !rows_equal(g[i as int], #[trigger] g[m]),
                    !keep ==> !no_later_copy(g, i as int),
                decreases n - k,
            {
                if keep && Model::array_rows_equal(&d[i], &d[k]) {
                    assert(g[k as int] == row_view(d@[k as int]));
                    assert(rows_equal(g[i as int], g[k as int]));
                    keep = false;
                }
                k += 1;
            }
        }
        assert(keep == unique_keeps(g, once, i as int));
        if keep {
            result.push(crate::values::clone_row(&d[i]));
            assert(grid_view(result) =~= keep_unique(g, once, i as int + 1));
        }
        i += 1;
    }
    result
}

impl Model {
    /// UNIQUE(array, [by_col], [exactly_once]): the distinct rows of `array`
    /// (columns when `by_col`) in order of first appearance; only those that
    /// occur exactly once when `exactly_once`. Rows are equal when their
    /// elements are (texts ignoring case). Nothing left is `#CALC!`.
    pub fn fn_unique(&self, array: &CalcResult, by_col: bool, exactly_once: bool) -> (r: CalcResult)
        ensures
            match spec_to_grid(*array) {
                Err(e) => is_error(r, e),
                Ok(a) => match spec_unique(a, by_col, exactly_once) {
                    Err(e) => is_error(r, e),
                    Ok(s) => is_array(r, s),
                },
            },
    {
        let array_data = match Model::calc_result_to_2d_array(array) {
            Ok(d) => d,
            Err(e) => return CalcResult::Error(e),
        };
        let data = if by_col {
            Model::transpose_2d(&array_data)
        } else {
            array_data
        };
        let result = unique_rows(&data, exactly_once);
        if result.len() == 0 {
            return CalcResult::Error(ErrorKind::Calc);
        }
        let result = if by_col {
            Model::transpose_2d(&result)
        } else {
            result
        };
        CalcResult::Array(result)
    }
}


proof fn lemma_keep_unique_origin(d: Seq<Seq<NodeV>>, once: bool, n: int, p: int)
    requires
        0 <= n <= d.len(),
        0 <= p < keep_unique(d, once, n).len(),
    ensures
        exists|j: int|
            0 <= j < n && unique_keeps(d, once, j) && keep_unique(d, once, n)[p] == #[trigger] d[j],
    decreases n,
{
    if n > 0 {
        if unique_keeps(d, once, n - 1) && p == keep_unique(d, once, n - 1).len() {
            assert(keep_unique(d, once, n)[p] == d[n - 1]);
        } else {
            lemma_keep_unique_origin(d, once, n - 1, p);
        }
    }
}

proof fn lemma_keep_unique_has(d: Seq<Seq<NodeV>>, once: bool, n: int, j: int)
    requires
        0 <= j < n <= d.len(),
        unique_keeps(d, once, j),
    ensures
        keep_unique(d, once, n).contains(d[j]),
    decreases n,
{
    if j == n - 1 {
        assert(keep_unique(d, once, n).last() == d[j]);
    } else {
        lemma_keep_unique_has(d, once, n - 1, j);
        let prev = keep_unique(d, once, n - 1);
        let k = choose|k: int| 0 <= k < prev.len() && prev[k] == d[j];
        if unique_keeps(d, once, n - 1) {
            assert(keep_unique(d, once, n)[k] == d[j]);
        }
    }
}

/// UNIQUE never keeps two equal rows.
pub proof fn lemma_unique_rows_distinct(d: Seq<Seq<NodeV>>, once: bool)
    ensures
        ({
            let s = keep_unique(d, once, d.len() as int);
            forall|p: int, q: int| 0 <= p < q < s.len() ==> !rows_equal(#[trigger] s[p], #[trigger] s[q])
        }),
{
    lemma_unique_distinct_upto(d, once, d.len() as int);
}

proof fn lemma_unique_distinct_upto(d: Seq<Seq<NodeV>>, once: bool, n: int)
    requires
        0 <= n <= d.len(),
    ensures
        ({
            let s = keep_unique(d, once, n);
            forall|p: int, q: int| 0 <= p < q < s.len() ==> !rows_equal(#[trigger] s[p], #[trigger] s[q])
        }),
    decreases n,
{
    if n > 0 {
        lemma_unique_distinct_upto(d, once, n - 1);
        let prev = keep_unique(d, once, n - 1);
        let s = keep_unique(d, once, n);
        if unique_keeps(d, once, n - 1) {
            assert forall|p: int, q: int| 0 <= p < q < s.len() implies !rows_equal(
                #[trigger] s[p],
                #[trigger] s[q],
            ) by {
                if q == prev.len() {
                    lemma_keep_unique_origin(d, once, n - 1, p);
                    let j = choose|j: int|
                        0 <= j < n - 1 && unique_keeps(d, once, j) && prev[p] == #[trigger] d[j];
                    assert(s[p] == prev[p]);
                    assert(!rows_equal(d[j], d[n - 1]));
                } else {
                    assert(s[p] == prev[p] && s[q] == prev[q]);
                }
            }
        }
    }
}

/// Without `exactly_once`, every row of the input equals some row that
/// UNIQUE keeps.
pub proof fn lemma_unique_rows_complete(d: Seq<Seq<NodeV>>, i: int)
    requires
        0 <= i < d.len(),
    ensures
        exists|p: int|
            0 <= p < keep_unique(d, false, d.len() as int).len() && rows_equal(
                #[trigger] keep_unique(d, false, d.len() as int)[p],
                d[i],
            ),
{
    lemma_rows_equal_equivalence(d[i], d[i], d[i]);
    let j = first_equal_below(d, i, i);
    lemma_keep_unique_has(d, false, d.len() as int, j);
    let s = keep_unique(d, false, d.len() as int);
    let p = choose|p: int| 0 <= p < s.len() && s[p] == d[j];
    assert(rows_equal(s[p], d[i]));
}

/// The first row equal to row `i`, searching below row `m`.
proof fn first_equal_below(d: Seq<Seq<NodeV>>, i: int, m: int) -> (j: int)
    requires
        0 <= m <= i < d.len(),
        rows_equal(d[m], d[i]),
    ensures
        0 <= j <= i,
        rows_equal(d[j], d[i]),
        first_occurrence(d, j),
    decreases m,
{
    if forall|k: int| 0 <= k < m ==> !rows_equal(#[trigger] d[k], d[i]) {
        assert forall|k: int| 0 <= k < m implies !rows_equal(#[trigger] d[k], d[m]) by {
            lemma_rows_equal_equivalence(d[k], d[m], d[i]);
        }
        m
    } else {
        let k = choose|k: int| 0 <= k < m && rows_equal(#[trigger] d[k], d[i]);
        first_equal_below(d, i, k)
    }
}


/// The element a row is sorted by: the one in column `col`, if the row has it.
pub open spec fn key(row: Seq<NodeV>, col: int) -> Option<NodeV> {
    if 0 <= col < row.len() {
        Some(row[col])
    } else {
        None
    }
}

/// Key `x` placed before key `y` is out of order.
pub open spec fn misplaced(x: Option<NodeV>, y: Option<NodeV>, asc: bool) -> bool {
    if asc {
        compare_nodes(x, y) == Order::Greater
    } else {
        compare_nodes(x, y) == Order::Less
    }
}

/// Every row's key is missing, a number or a text.
pub open spec fn keys_orderable(d: Seq<Seq<NodeV>>, col: int) -> bool {
    forall|i: int| 0 <= i < d.len() ==> orderable(#[trigger] key(d[i], col))
}

/// `p` lists each of `0..n` exactly once.
pub open spec fn is_permutation(p: Seq<int>, n: int) -> bool {
    &&& p.len() == n
    &&& forall|i: int| 0 <= i < n ==> 0 <= #[trigger] p[i] < n
    &&& forall|i: int, j: int| 0 <= i < j < n ==> #[trigger] p[i] != #[trigger] p[j]
}

/// Taking the rows of `d` in the order `p` puts every pair in order, and
/// rows with equal keys keep their relative order.
pub open spec fn sorted_by_index(d: Seq<Seq<NodeV>>, p: Seq<int>, col: int, asc: bool) -> bool {
    forall|a: int, b: int|
        0 <= a < b < p.len() ==> {
            &&& !misplaced(key(d[#[trigger] p[a]], col), key(d[#[trigger] p[b]], col), asc)
            &&& compare_nodes(key(d[p[a]], col), key(d[p[b]], col)) == Order::Equal ==> p[a] < p[b]
        }
}

/// `s` is `d` rearranged by some permutation that, whenever every key is
/// missing, a number or a text, sorts the rows stably by their keys.
pub open spec fn stable_sort_of(d: Seq<Seq<NodeV>>, s: Seq<Seq<NodeV>>, col: int, asc: bool) -> bool {
    exists|p: Seq<int>|
        #![trigger is_permutation(p, d.len() as int)]
        {
            &&& is_permutation(p, d.len() as int)
            &&& s.len() == d.len()
            &&& forall|i: int| 0 <= i < s.len() ==> #[trigger] s[i] == d[p[i]]
            &&& keys_orderable(d, col) ==> sorted_by_index(d, p, col, asc)
        }
}

proof fn lemma_in_order_trans(x: Option<NodeV>, y: Option<NodeV>, z: Option<NodeV>, asc: bool)
    requires
        orderable(x),
        orderable(y),
        orderable(z),
        !misplaced(x, y, asc),
        !misplaced(y, z, asc),
    ensures
        !misplaced(x, z, asc),
{
    if asc {
        lemma_compare_trans(x, y, z);
    } else {
        lemma_compare_reverse(x, y);
        lemma_compare_reverse(y, z);
        lemma_compare_reverse(x, z);
        lemma_compare_trans(z, y, x);
    }
}

proof fn lemma_misplaced_flip(x: Option<NodeV>, y: Option<NodeV>, asc: bool)
    requires
        misplaced(y, x, asc),
    ensures
        !misplaced(x, y, asc),
        compare_nodes(x, y) != Order::Equal,
{
    lemma_compare_reverse(y, x);
}

fn row_get(row: &Vec<ArrayNode>, i: usize) -> (r: Option<&ArrayNode>)
    ensures
        opt_view(r) == key(row_view(*row), i as int),
{
    if i < row.len() {
        Some(&row[i])
    } else {
        None
    }
}

fn misplaced_exec(x: Option<&ArrayNode>, y: Option<&ArrayNode>, asc: bool) -> (b: bool)
    ensures
        b == misplaced(opt_view(x), opt_view(y), asc),
{
    let c = Model::compare_array_nodes_static(x, y);
    if asc {
        c == Order::Greater
    } else {
        c == Order::Less
    }
}

pub open spec fn index_view(v: Seq<usize>) -> Seq<int> {
    v.map_values(|x: usize| x as int)
}

fn sort_indices(data: &Grid, col: usize, asc: bool) -> (idx: Vec<usize>)
    ensures
        is_permutation(index_view(idx@), data.len() as int),
        keys_orderable(grid_view(*data), col as int) ==> sorted_by_index(
            grid_view(*data),
            index_view(idx@),
            col as int,
            asc,
        ),
{
    let ghost d = grid_view(*data);
    let ghost ok = keys_orderable(d, col as int);
    let n = data.len();
    let mut idx: Vec<usize> = Vec::new();
    let mut i: usize = 0;
    while i < n
        invariant
            i <= n,
            n == data.len(),
            d == grid_view(*data),
            ok == keys_orderable(d, col as int),
            idx.len() == i,
            forall|a: int| 0 <= a < i ==> #[trigger] idx@[a] < i,
            forall|a: int, b: int| 0 <= a < b < i ==> #[trigger] idx@[a] != #[trigger] idx@[b],
            ok ==> sorted_by_index(d, index_view(idx@), col as int, asc),
        decreases n - i,
    {
        let ghost ki = key(d[i as int], col as int);
        let mut j: usize = i;
        while j > 0 && misplaced_exec(
            row_get(&data[idx[j - 1]], col),
            row_get(&data[i], col),
            asc,
        )
            invariant
                j <= i < n,
                n == data.len(),
                d == grid_view(*data),
                idx.len() == i,
                forall|a: int| 0 <= a < i ==> #[trigger] idx@[a] < i,
                ki == key(d[i as int], col as int),
                forall|b: int|
                    j <= b < i ==> misplaced(key(d[#[trigger] idx@[b] as int], col as int), ki, asc),
            decreases j,
        {
            j -= 1;
        }
        let ghost old_idx = idx@;
        proof {
            if ok && j > 0 {
                assert(!misplaced(key(d[old_idx[j - 1] as int], col as int), ki, asc));
            }
        }
        idx.insert(j, i);
        proof {
            let q = index_view(idx@);
            let o = index_view(old_idx);
            assert(idx@ == old_idx.insert(j as int, i));
            assert forall|a: int| 0 <= a < i + 1 implies #[trigger] idx@[a] < i + 1 by {
                if a < j {
                    assert(idx@[a] == old_idx[a]);
                } else if a > j {
                    assert(idx@[a] == old_idx[a - 1]);
                }
            }
            assert forall|a: int, b: int| 0 <= a < b < i + 1 implies #[trigger] idx@[a]
                != #[trigger] idx@[b] by {
                if b < j {
                } else if b == j {
                    assert(idx@[a] == old_idx[a]);
                } else if a < j {
                    assert(idx@[a] == old_idx[a] && idx@[b] == old_idx[b - 1]);
                } else if a == j {
                    assert(idx@[b] == old_idx[b - 1]);
                } else {
                    assert(idx@[a] == old_idx[a - 1] && idx@[b] == old_idx[b - 1]);
                }
            }
            if ok {
                assert forall|a: int, b: int| 0 <= a < b < q.len() implies {
                    &&& !misplaced(
                        key(d[#[trigger] q[a]], col as int),
                        key(d[#[trigger] q[b]], col as int),
                        asc,
                    )
                    &&& compare_nodes(key(d[q[a]], col as int), key(d[q[b]], col as int))
                        == Order::Equal ==> q[a] < q[b]
                } by {
                    let ka = key(d[q[a]], col as int);
                    let kb = key(d[q[b]], col as int);
                    assert(orderable(ka) && orderable(kb) && orderable(ki));
                    if b < j {
                        assert(q[a] == o[a] && q[b] == o[b]);
                    } else if b == j {
                        assert(q[a] == o[a]);
                        assert(q[b] == i);
                        if a < j - 1 {
                            let km = key(d[o[j - 1]], col as int);
                            assert(orderable(km));
                            assert(!misplaced(ka, km, asc));
                            lemma_in_order_trans(ka, km, ki, asc);
                        }
                    } else if a < j {
                        assert(q[a] == o[a] && q[b] == o[b - 1]);
                    } else if a == j {
                        assert(q[a] == i);
                        assert(q[b] == o[b - 1]);
                        assert(misplaced(kb, ki, asc));
                        lemma_misplaced_flip(ki, kb, asc);
                    } else {
                        assert(q[a] == o[a - 1] && q[b] == o[b - 1]);
                    }
                }
            }
        }
        i += 1;
    }
    idx
}

/// The column that SORT sorts by, counted from zero.
pub open spec fn sort_column(sort_index: Option<Number>) -> int {
    let si = match sort_index {
        Some(n) => spec_to_usize(n),
        None => 1,
    };
    if si > 0 {
        si - 1
    } else {
        0
    }
}

/// SORT sorts in ascending order.
pub open spec fn sort_ascending(sort_order: Option<Number>) -> bool {
    match sort_order {
        Some(n) => n.scaled >= 0,
        None => true,
    }
}

/// The rows that SORT rearranges: the columns when `by_col`.
pub open spec fn oriented(a: Seq<Seq<NodeV>>, by_col: bool) -> Seq<Seq<NodeV>> {
    if by_col {
        transpose(a)
    } else {
        a
    }
}

/// `r` is the array `a` sorted as SORT sorts it.
pub open spec fn sorted_result(
    a: Seq<Seq<NodeV>>,
    sort_index: Option<Number>,
    sort_order: Option<Number>,
    by_col: bool,
    r: CalcResult,
) -> bool {
    &&& r is Array
    &&& exists|s: Seq<Seq<NodeV>>|
        #![trigger stable_sort_of(oriented(a, by_col), s, sort_column(sort_index), sort_ascending(sort_order))]
        {
            &&& stable_sort_of(
                oriented(a, by_col),
                s,
                sort_column(sort_index),
                sort_ascending(sort_order),
            )
            &&& grid_view(r->Array_0) == oriented(s, by_col)
        }
}

/// SORT of `array` gives `r` (see `fn_sort`).
pub open spec fn sorts_to(
    array: CalcResult,
    sort_index: Option<Number>,
    sort_order: Option<Number>,
    by_col: bool,
    r: CalcResult,
) -> bool {
    match spec_to_grid(array) {
        Err(e) => is_error(r, e),
        Ok(a) => sorted_result(a, sort_index, sort_order, by_col, r),
    }
}

impl Model {
    /// SORT(array, [sort_index], [sort_order], [by_col]): the rows of `array`
    /// (columns when `by_col`) sorted stably by their element in column
    /// `sort_index` (default 1; 0 counts as 1), ascending unless `sort_order`
    /// is negative. Missing elements come first, numbers before texts, texts
    /// ignoring case; booleans and errors compare equal to everything, and
    /// where a key is one the order is left open beyond being a rearrangement.
    pub fn fn_sort(
        &self,
        array: &CalcResult,
        sort_index: Option<Number>,
        sort_order: Option<Number>,
        by_col: bool,
    ) -> (r: CalcResult)
        ensures
            sorts_to(*array, sort_index, sort_order, by_col, r),
    {
        let array_data = match Model::calc_result_to_2d_array(array) {
            Ok(d) => d,
            Err(e) => return CalcResult::Error(e),
        };
        let si = match sort_index {
            Some(n) => n.to_usize(),
            None => 1,
        };
        let asc = match sort_order {
            Some(n) => n.scaled >= 0,
            None => true,
        };
        let data = if by_col {
            Model::transpose_2d(&array_data)
        } else {
            clone_grid(&array_data)
        };
        let col = if si > 0 {
            si - 1
        } else {
            0
        };
        let idx = sort_indices(&data, col, asc);
        let ghost d = grid_view(data);
        let ghost p = index_view(idx@);
        let mut sorted: Grid = Vec::new();
        let mut k: usize = 0;
        while k < idx.len()
            invariant
                k <= idx.len(),
                idx.len() == data.len(),
                d == grid_view(data),
                p == index_view(idx@),
                is_permutation(p, data.len() as int),
                sorted.len() == k,
                forall|m: int| 0 <= m < k ==> row_view(#[trigger] sorted@[m]) == d[p[m]],
            decreases idx.len() - k,
        {
            assert(p[k as int] == idx@[k as int] as int);
            sorted.push(crate::values::clone_row(&data[idx[k]]));
            k += 1;
        }
        let ghost s = grid_view(sorted);
        assert(forall|m: int| 0 <= m < s.len() ==> #[trigger] s[m] == d[p[m]]);
        assert(is_permutation(p, d.len() as int));
        assert(stable_sort_of(d, s, col as int, asc));
        let result = if by_col {
            Model::transpose_2d(&sorted)
        } else {
            sorted
        };
        let r = CalcResult::Array(result);
        let ghost a = grid_view(array_data);
        assert(spec_to_grid(*array) == Ok::<Seq<Seq<NodeV>>, ErrorKind>(a));
        assert(d == oriented(a, by_col));
        assert(col as int == sort_column(sort_index));
        assert(stable_sort_of(oriented(a, by_col), s, sort_column(sort_index), sort_ascending(sort_order)));
        assert(grid_view(r->Array_0) == oriented(s, by_col));
        assert(sorted_result(a, sort_index, sort_order, by_col, r));
        r
    }

    /// SORTBY(array, by_array, [sort_order]): the rows of `array` sorted
    /// stably by the elements of `by_array` (read row by row, one key per
    /// row of `array`), ascending unless `sort_order` is negative, with the
    /// order of SORT. A `by_array` with a different number of elements than
    /// `array` has rows is `#VALUE!`; an error in either argument is that
    /// error.
    pub fn fn_sortby(&self, array: &CalcResult, by_array: &CalcResult, sort_order: Option<Number>) -> (r:
        CalcResult)
        ensures
            match (spec_to_grid(*array), spec_to_grid(*by_array)) {
                (Err(e), _) => is_error(r, e),
                (Ok(_), Err(e)) => is_error(r, e),
                (Ok(a), Ok(b)) => if flatten(b).len() != a.len() {
                    is_error(r, ErrorKind::Value)
                } else {
                    r is Array && sorted_by_keys(a, flatten(b), grid_view(r->Array_0), sort_ascending(sort_order))
                },
            },
    {
        let array_data = match Model::calc_result_to_2d_array(array) {
            Ok(d) => d,
            Err(e) => return CalcResult::Error(e),
        };
        let by_data = match Model::calc_result_to_2d_array(by_array) {
            Ok(d) => d,
            Err(e) => return CalcResult::Error(e),
        };
        let keys = flatten_grid(&by_data);
        if keys.len() != array_data.len() {
            return CalcResult::Error(ErrorKind::Value);
        }
        let asc = match sort_order {
            Some(n) => n.scaled >= 0,
            None => true,
        };
        let mut kg: Grid = Vec::new();
        let mut k: usize = 0;
        while k < keys.len()
            invariant
                k <= keys.len(),
                kg.len() == k,
                forall|m: int| 0 <= m < k ==> #[trigger] row_view(kg@[m]) == seq![keys@[m]@],
            decreases keys.len() - k,
        {
            let mut row: Vec<ArrayNode> = Vec::new();
            row.push(keys[k].clone());
            assert(row_view(row) =~= seq![keys@[k as int]@]);
            kg.push(row);
            k += 1;
        }
        let ghost kv = nodes_view(keys@);
        assert(grid_view(kg) =~= key_grid(kv));
        let idx = sort_indices(&kg, 0, asc);
        let ghost d = grid_view(array_data);
        let ghost p = index_view(idx@);
        let mut sorted: Grid = Vec::new();
        let mut k: usize = 0;
        while k < idx.len()
            invariant
                k <= idx.len(),
                idx.len() == array_data.len(),
                d == grid_view(array_data),
                p == index_view(idx@),
                is_permutation(p, array_data.len() as int),
                sorted.len() == k,
                forall|m: int| 0 <= m < k ==> row_view(#[trigger] sorted@[m]) == d[p[m]],
            decreases idx.len() - k,
        {
            assert(p[k as int] == idx@[k as int] as int);
            sorted.push(crate::values::clone_row(&array_data[idx[k]]));
            k += 1;
        }
        let ghost s = grid_view(sorted);
        assert(forall|m: int| 0 <= m < s.len() ==> #[trigger] s[m] == d[p[m]]);
        assert(is_permutation(p, d.len() as int));
        assert(sorted_by_keys(d, kv, s, asc));
        CalcResult::Array(sorted)
    }
}

/// One row per key, holding just that key.
pub open spec fn key_grid(keys: Seq<NodeV>) -> Seq<Seq<NodeV>> {
    Seq::new(keys.len(), |i: int| seq![keys[i]])
}

/// `s` is the rows of `a` rearranged by some permutation that, whenever
/// every key is missing, a number or a text, orders the rows stably by the
/// key in the same place as the row.
pub open spec fn sorted_by_keys(a: Seq<Seq<NodeV>>, keys: Seq<NodeV>, s: Seq<Seq<NodeV>>, asc: bool) -> bool {
    exists|p: Seq<int>|
        #![trigger is_permutation(p, a.len() as int)]
        {
            &&& is_permutation(p, a.len() as int)
            &&& s.len() == a.len()
            &&& forall|i: int| 0 <= i < s.len() ==> #[trigger] s[i] == a[p[i]]
            &&& keys_orderable(key_grid(keys), 0) ==> sorted_by_index(key_grid(keys), p, 0, asc)
        }
}

/// The items in the order XMATCH searches them: from the last when the
/// search mode is negative.
pub open spec fn search_order(items: Seq<NodeV>, search: int) -> Seq<NodeV> {
    Seq::new(items.len(), |k: int| items[search_index(items.len() as int, search, k)])
}

/// The position in the array of the `k`-th item searched.
pub open spec fn search_index(n: int, search: int, k: int) -> int {
    if search < 0 {
        n - 1 - k
    } else {
        k
    }
}

/// The first position from `k` on whose item equals the lookup value.
pub open spec fn first_hit(items: Seq<NodeV>, lookup: NodeV, k: int) -> Option<int>
    decreases items.len() - k,
{
    if k < 0 || k >= items.len() {
        None
    } else if nodes_equal(lookup, items[k]) {
        Some(k)
    } else {
        first_hit(items, lookup, k + 1)
    }
}

/// An item is a candidate for an approximate match: below the lookup value
/// for match mode -1, above it for 1.
pub open spec fn near_candidate(lookup: NodeV, item: NodeV, mode: int) -> bool {
    if mode == -1 {
        compare_nodes(Some(item), Some(lookup)) == Order::Less
    } else {
        compare_nodes(Some(item), Some(lookup)) == Order::Greater
    }
}

/// `x` is nearer to the lookup value than `y`: larger for match mode -1,
/// smaller for 1.
pub open spec fn nearer(x: NodeV, y: NodeV, mode: int) -> bool {
    if mode == -1 {
        compare_nodes(Some(y), Some(x)) == Order::Less
    } else {
        compare_nodes(Some(x), Some(y)) == Order::Less
    }
}

/// Among the first `k` items, the position of the nearest candidate (the
/// first of equally near ones).
pub open spec fn nearest(items: Seq<NodeV>, lookup: NodeV, mode: int, k: int) -> Option<int>
    decreases k,
{
    if k <= 0 || k > items.len() {
        None
    } else {
        let prev = nearest(items, lookup, mode, k - 1);
        if near_candidate(lookup, items[k - 1], mode) {
            match prev {
                None => Some(k - 1),
                Some(b) => if nearer(items[k - 1], items[b], mode) {
                    Some(k - 1)
                } else {
                    prev
                },
            }
        } else {
            prev
        }
    }
}

/// A text item matches a text lookup value taken as a wildcard pattern
/// (`?`, `*`, `~`), ignoring case: the pattern matches the whole item.
pub open spec fn wild_hit(lookup: NodeV, item: NodeV) -> bool {
    match (lookup, item) {
        (NodeV::Text(p), NodeV::Text(x)) => wild_full(wild_tokens(lowercase(p)), lowercase(x)),
        _ => false,
    }
}

/// The first position from `k` on whose item matches the wildcard lookup.
pub open spec fn first_wild(items: Seq<NodeV>, lookup: NodeV, k: int) -> Option<int>
    decreases items.len() - k,
{
    if k < 0 || k >= items.len() {
        None
    } else if wild_hit(lookup, items[k]) {
        Some(k)
    } else {
        first_wild(items, lookup, k + 1)
    }
}

/// The position (from zero) among the items, in search order, that XMATCH
/// finds: for match mode 2 and a text lookup value, the first item the
/// value matches as a wildcard pattern; otherwise the first equal item,
/// and failing that, for match mode -1 the largest item below the value and
/// for 1 the smallest above it.
pub open spec fn ordered_hit(ord: Seq<NodeV>, lookup: NodeV, mode: int) -> Option<int> {
    if mode == 2 && lookup is Text {
        first_wild(ord, lookup, 0)
    } else {
        exact_or_near(ord, lookup, mode)
    }
}

/// The first equal item; failing that, for match mode -1 the largest item
/// below the value and for 1 the smallest above it.
pub open spec fn exact_or_near(ord: Seq<NodeV>, lookup: NodeV, mode: int) -> Option<int> {
    match first_hit(ord, lookup, 0) {
        Some(p) => Some(p),
        None => if mode == -1 || mode == 1 {
            nearest(ord, lookup, mode, ord.len() as int)
        } else {
            None
        },
    }
}

/// The position (from zero) in the array that XMATCH finds, searching from
/// the last item when the search mode is negative.
pub open spec fn xmatch_position(items: Seq<NodeV>, lookup: NodeV, mode: int, search: int) -> Option<int> {
    match ordered_hit(search_order(items, search), lookup, mode) {
        Some(k) => Some(search_index(items.len() as int, search, k)),
        None => None,
    }
}

fn index_in_order(n: usize, search: i32, k: usize) -> (r: usize)
    requires
        k < n,
    ensures
        r == search_index(n as int, search as int, k as int),
        r < n,
{
    if search < 0 {
        n - 1 - k
    } else {
        k
    }
}

impl Model {
    /// XMATCH(lookup_value, lookup_array, [match_mode], [search_mode]): the
    /// position, counted from one, in the array or range of the first item
    /// equal to the lookup value, searching from the last item when
    /// `search_mode` is negative. With no equal item, match mode -1 takes
    /// the largest item below the value and match mode 1 the smallest above
    /// it (the first found of equally near ones); with match mode 2 a text
    /// lookup value is a wildcard pattern that must match a whole text
    /// item, ignoring case; `#N/A` when there is none. An error lookup value
    /// is returned as it is.
    #[verifier::loop_isolation(false)]
    pub fn fn_xmatch(
        &self,
        lookup_value: &CalcResult,
        lookup_array: &CalcResult,
        match_mode: Option<Number>,
        search_mode: Option<Number>,
    ) -> (r: CalcResult)
        ensures
            *lookup_value is Error ==> r == *lookup_value,
            !(*lookup_value is Error) ==> match spec_to_flat(*lookup_array) {
                Err(e) => is_error(r, e),
                Ok(items) => {
                    let mode = match match_mode {
                        Some(n) => spec_to_i32(n),
                        None => 0,
                    };
                    let search = match search_mode {
                        Some(n) => spec_to_i32(n),
                        None => 1,
                    };
                    match xmatch_position(items, result_node(*lookup_value), mode, search) {
                        Some(p) => is_number(r, (p + 1) * SCALE),
                        None => is_error(r, ErrorKind::Na),
                    }
                },
            },
    {
        if let CalcResult::Error(e) = lookup_value {
            return CalcResult::Error(*e);
        }
        let array_data = match Model::calc_result_to_flat_array(lookup_array) {
            Ok(d) => d,
            Err(e) => return CalcResult::Error(e),
        };
        let mode = match match_mode {
            Some(n) => n.to_i32(),
            None => 0,
        };
        let search = match search_mode {
            Some(n) => n.to_i32(),
            None => 1,
        };
        let lookup_node = Model::calc_result_to_array_node(lookup_value);
        assert(SCALE == 1_000_000_000);
        let ghost items = nodes_view(array_data@);
        let n = array_data.len();
        let ghost ord = search_order(items, search as int);
        let ghost lk = lookup_node@;
        if mode == 2 {
            if let ArrayNode::Text(pat) = &lookup_node {
                let lowered = to_lowercase(pat.as_str());
                let pc = chars_of(lowered.as_str());
                let toks = wild_tokens_exec(&pc);
                let mut k: usize = 0;
                while k < n
                    invariant
                        k <= n,
                        n == array_data.len(),
                        items == nodes_view(array_data@),
                        ord == search_order(items, search as int),
                        lk == lookup_node@,
                        lk == NodeV::Text(pat@),
                        toks@ == wild_tokens(lowercase(pat@)),
                        first_wild(ord, lk, 0) == first_wild(ord, lk, k as int),
                    decreases n - k,
                {
                    let at = index_in_order(n, search, k);
                    assert(ord[k as int] == items[at as int]);
                    if let ArrayNode::Text(x) = &array_data[at] {
                        let xl = to_lowercase(x.as_str());
                        let xc = chars_of(xl.as_str());
                        if wild_full_exec(&toks, &xc) {
                            assert(first_wild(ord, lk, k as int) == Some(k as int));
                            let pos = at as i128;
                            return CalcResult::Number(Number { scaled: (pos + 1) * 1_000_000_000 });
                        }
                    }
                    k += 1;
                }
                return CalcResult::Error(ErrorKind::Na);
            }
        }
        let mut k: usize = 0;
        while k < n
            invariant
                k <= n,
                n == array_data.len(),
                items == nodes_view(array_data@),
                ord == search_order(items, search as int),
                lk == lookup_node@,
                first_hit(ord, lk, 0) == first_hit(ord, lk, k as int),
            decreases n - k,
        {
            let at = index_in_order(n, search, k);
            assert(ord[k as int] == items[at as int]);
            if Model::array_nodes_equal_static(&lookup_node, &array_data[at]) {
                assert(first_hit(ord, lk, k as int) == Some(k as int));
                let pos = at as i128;
                return CalcResult::Number(Number { scaled: (pos + 1) * 1_000_000_000 });
            }
            k += 1;
        }
        assert(first_hit(ord, lk, 0) is None);
        if mode != -1 && mode != 1 {
            return CalcResult::Error(ErrorKind::Na);
        }
        let mut best: Option<usize> = None;
        let mut k: usize = 0;
        while k < n
            invariant
                k <= n,
                n == array_data.len(),
                items == nodes_view(array_data@),
                ord == search_order(items, search as int),
                ord.len() == n,
                lk == lookup_node@,
                mode == -1 || mode == 1,
                match best {
                    Some(b) => nearest(ord, lk, mode as int, k as int) == Some(b as int) && b < k,
                    None => nearest(ord, lk, mode as int, k as int) is None,
                },
            decreases n - k,
        {
            let at = index_in_order(n, search, k);
            assert(ord[k as int] == items[at as int]);
            let c = Model::compare_array_nodes_static(Some(&array_data[at]), Some(&lookup_node));
            let candidate = if mode == -1 {
                c == Order::Less
            } else {
                c == Order::Greater
            };
            if candidate {
                match best {
                    None => {
                        best = Some(k);
                    },
                    Some(b) => {
                        let bat = index_in_order(n, search, b);
                        assert(ord[b as int] == items[bat as int]);
                        let closer = if mode == -1 {
                            Model::compare_array_nodes_static(Some(&array_data[bat]), Some(&array_data[at]))
                                == Order::Less
                        } else {
                            Model::compare_array_nodes_static(Some(&array_data[at]), Some(&array_data[bat]))
                                == Order::Less
                        };
                        if closer {
                            best = Some(k);
                        }
                    },
                }
            }
            k += 1;
        }
        match best {
            Some(b) => {
                let at = index_in_order(n, search, b);
                let pos = at as i128;
                CalcResult::Number(Number { scaled: (pos + 1) * 1_000_000_000 })
            },
            None => CalcResult::Error(ErrorKind::Na),
        }
    }
}


pub open spec fn min_int(a: int, b: int) -> int {
    if a < b {
        a
    } else {
        b
    }
}

pub open spec fn max_int(a: int, b: int) -> int {
    if a > b {
        a
    } else {
        b
    }
}

/// Rows `rs..re` of `d`, each cut to its elements `cs..min(ce, len)`.
pub open spec fn block(d: Seq<Seq<NodeV>>, rs: int, re: int, cs: int, ce: int) -> Seq<Seq<NodeV>> {
    Seq::new(
        (re - rs) as nat,
        |i: int| d[rs + i].subrange(cs, min_int(ce, d[rs + i].len() as int)),
    )
}

/// Every row in `rs..re` reaches column `cs`, so cutting it does not fail.
pub open spec fn block_fits(d: Seq<Seq<NodeV>>, rs: int, re: int, cs: int) -> bool {
    forall|i: int| rs <= i < re ==> cs <= #[trigger] d[i].len()
}

/// The rows and the width of the first row fit in an `i32`.
pub open spec fn dims_fit(d: Seq<Seq<NodeV>>) -> bool {
    d.len() <= i32::MAX && width(d) <= i32::MAX
}

/// The range `start..end` that TAKE keeps of `total` items for a count `k`
/// (from the start when `k >= 0`, from the end otherwise).
pub open spec fn take_range(total: int, k: int) -> (int, int) {
    if k >= 0 {
        (0, min_int(k, total))
    } else {
        (max_int(total + k, 0), total)
    }
}

/// The range `start..end` that DROP keeps of `total` items for a count `k`.
pub open spec fn drop_range(total: int, k: int) -> (int, int) {
    if k >= 0 {
        (min_int(k, total), total)
    } else {
        (0, max_int(total + k, 0))
    }
}

/// The count of columns TAKE or DROP is given, or `default`.
pub open spec fn count_or(n: Option<Number>, default: int) -> int {
    match n {
        Some(x) => spec_to_i32(x),
        None => default,
    }
}

fn cut_block(data: &Grid, rs: usize, re: usize, cs: usize, ce: usize) -> (r: Grid)
    requires
        rs <= re <= data.len(),
        cs <= ce,
        block_fits(grid_view(*data), rs as int, re as int, cs as int),
    ensures
        grid_view(r) == block(grid_view(*data), rs as int, re as int, cs as int, ce as int),
{
    let ghost d = grid_view(*data);
    let mut result: Grid = Vec::new();
    let mut i: usize = rs;
    while i < re
        invariant
            rs <= i <= re <= data.len(),
            cs <= ce,
            d == grid_view(*data),
            block_fits(d, rs as int, re as int, cs as int),
            result.len() == i - rs,
            forall|k: int|
                0 <= k < i - rs ==> row_view(#[trigger] result@[k]) == d[rs + k].subrange(
                    cs as int,
                    min_int(ce as int, d[rs + k].len() as int),
                ),
        decreases re - i,
    {
        let row = &data[i];
        let end = if ce < row.len() {
            ce
        } else {
            row.len()
        };
        assert(cs <= d[i as int].len());
        let mut new_row: Vec<ArrayNode> = Vec::new();
        let mut j: usize = cs;
        while j < end
            invariant
                cs <= j <= end <= row.len(),
                i < data.len(),
                d == grid_view(*data),
                row_view(*row) == d[i as int],
                new_row.len() == j - cs,
                forall|k: int| 0 <= k < j - cs ==> #[trigger] new_row@[k]@ == d[i as int][cs + k],
            decreases end - j,
        {
            new_row.push(row[j].clone());
            j += 1;
        }
        assert(row_view(new_row) =~= d[i as int].subrange(cs as int, end as int));
        result.push(new_row);
        i += 1;
    }
    assert(grid_view(result) =~= block(d, rs as int, re as int, cs as int, ce as int));
    result
}

/// TAKE or DROP can cut the rows it keeps (no row is shorter than the first
/// column kept).
pub open spec fn take_fits(array: CalcResult, rows: Number, columns: Option<Number>) -> bool {
    match spec_to_grid(array) {
        Ok(d) => dims_fit(d) && {
            let rr = take_range(d.len() as int, spec_to_i32(rows));
            let cr = take_range(width(d), count_or(columns, width(d)));
            block_fits(d, rr.0, rr.1, cr.0)
        },
        Err(_) => true,
    }
}

pub open spec fn drop_fits(array: CalcResult, rows: Number, columns: Option<Number>) -> bool {
    match spec_to_grid(array) {
        Ok(d) => dims_fit(d) && {
            let rr = drop_range(d.len() as int, spec_to_i32(rows));
            let cr = drop_range(width(d), count_or(columns, 0));
            block_fits(d, rr.0, rr.1, cr.0)
        },
        Err(_) => true,
    }
}

/// What TAKE or DROP gives for a block: `#CALC!` when it is empty.
pub open spec fn block_result(r: CalcResult, b: Seq<Seq<NodeV>>) -> bool {
    if b.len() == 0 {
        is_error(r, ErrorKind::Calc)
    } else {
        is_array(r, b)
    }
}

fn range_bounds(total: i32, k: i32, taking: bool) -> (r: (usize, usize))
    requires
        total >= 0,
    ensures
        r.0 as int == (if taking {
            take_range(total as int, k as int).0
        } else {
            drop_range(total as int, k as int).0
        }),
        r.1 as int == (if taking {
            take_range(total as int, k as int).1
        } else {
            drop_range(total as int, k as int).1
        }),
        r.0 <= r.1 <= total,
{
    if taking {
        if k >= 0 {
            (0, if k < total {
                k as usize
            } else {
                total as usize
            })
        } else {
            let s = total + k;
            (if s > 0 {
                s as usize
            } else {
                0
            }, total as usize)
        }
    } else {
        if k >= 0 {
            (if k < total {
                k as usize
            } else {
                total as usize
            }, total as usize)
        } else {
            let e = total + k;
            (0, if e > 0 {
                e as usize
            } else {
                0
            })
        }
    }
}

impl Model {
    /// TAKE(array, rows, [columns]): the first `rows` rows (the last ones
    /// when negative) and likewise the columns (all by default). No rows in
    /// the array gives an empty array; nothing taken is `#CALC!`.
    pub fn fn_take(&self, array: &CalcResult, rows: Number, columns: Option<Number>) -> (r: CalcResult)
        requires
            take_fits(*array, rows, columns),
        ensures
            match spec_to_grid(*array) {
                Err(e) => is_error(r, e),
                Ok(d) => if d.len() == 0 {
                    is_array(r, seq![])
                } else {
                    let rr = take_range(d.len() as int, spec_to_i32(rows));
                    let cr = take_range(width(d), count_or(columns, width(d)));
                    block_result(r, block(d, rr.0, rr.1, cr.0, cr.1))
                },
            },
    {
        let data = match Model::calc_result_to_2d_array(array) {
            Ok(d) => d,
            Err(e) => return CalcResult::Error(e),
        };
        if data.len() == 0 {
            let empty: Grid = Vec::new();
            assert(grid_view(empty) =~= seq![]);
            return CalcResult::Array(empty);
        }
        let total_rows = data.len() as i32;
        let total_cols = grid_width(&data) as i32;
        let take_rows = rows.to_i32();
        let take_cols = match columns {
            Some(n) => n.to_i32(),
            None => total_cols,
        };
        let (rs, re) = range_bounds(total_rows, take_rows, true);
        let (cs, ce) = range_bounds(total_cols, take_cols, true);
        let result = cut_block(&data, rs, re, cs, ce);
        if result.len() == 0 {
            CalcResult::Error(ErrorKind::Calc)
        } else {
            CalcResult::Array(result)
        }
    }

    /// DROP(array, rows, [columns]): everything but the first `rows` rows
    /// (the last ones when negative) and likewise columns (none by default).
    /// No rows in the array gives an empty array; nothing left is `#CALC!`.
    pub fn fn_drop(&self, array: &CalcResult, rows: Number, columns: Option<Number>) -> (r: CalcResult)
        requires
            drop_fits(*array, rows, columns),
        ensures
            match spec_to_grid(*array) {
                Err(e) => is_error(r, e),
                Ok(d) => if d.len() == 0 {
                    is_array(r, seq![])
                } else {
                    let rr = drop_range(d.len() as int, spec_to_i32(rows));
                    let cr = drop_range(width(d), count_or(columns, 0));
                    block_result(r, block(d, rr.0, rr.1, cr.0, cr.1))
                },
            },
    {
        let data = match Model::calc_result_to_2d_array(array) {
            Ok(d) => d,
            Err(e) => return CalcResult::Error(e),
        };
        if data.len() == 0 {
            let empty: Grid = Vec::new();
            assert(grid_view(empty) =~= seq![]);
            return CalcResult::Array(empty);
        }
        let total_rows = data.len() as i32;
        let total_cols = grid_width(&data) as i32;
        let drop_rows = rows.to_i32();
        let drop_cols = match columns {
            Some(n) => n.to_i32(),
            None => 0,
        };
        let (rs, re) = range_bounds(total_rows, drop_rows, false);
        let (cs, ce) = range_bounds(total_cols, drop_cols, false);
        let result = cut_block(&data, rs, re, cs, ce);
        if result.len() == 0 {
            CalcResult::Error(ErrorKind::Calc)
        } else {
            CalcResult::Array(result)
        }
    }
}


/// The zero-based positions that CHOOSECOLS or CHOOSEROWS picks out of
/// `total`: a positive number counts from the start, a negative one from
/// the end; zero or a position outside is `#VALUE!` (the first such wins).
pub open spec fn chosen_positions(nums: Seq<Number>, total: int) -> Result<Seq<int>, ErrorKind>
    decreases nums.len(),
{
    if nums.len() == 0 {
        Ok(seq![])
    } else {
        match chosen_positions(nums.drop_last(), total) {
            Err(e) => Err(e),
            Ok(prev) => {
                let k = spec_to_i32(nums.last());
                let idx = if k > 0 {
                    k - 1
                } else {
                    total + k
                };
                if k == 0 || idx < 0 || idx >= total {
                    Err(ErrorKind::Value)
                } else {
                    Ok(prev.push(idx))
                }
            },
        }
    }
}

/// The elements of `row` at the given positions, skipping positions past its end.
pub open spec fn pick(row: Seq<NodeV>, idx: Seq<int>) -> Seq<NodeV>
    decreases idx.len(),
{
    if idx.len() == 0 {
        seq![]
    } else if idx.last() < row.len() {
        pick(row, idx.drop_last()).push(row[idx.last()])
    } else {
        pick(row, idx.drop_last())
    }
}

fn resolve_positions(nums: &Vec<Number>, total: i32) -> (r: Result<Vec<usize>, ErrorKind>)
    requires
        total >= 0,
    ensures
        match r {
            Ok(v) => chosen_positions(nums@, total as int) == Ok::<Seq<int>, ErrorKind>(
                index_view(v@),
            ) && forall|k: int| 0 <= k < v.len() ==> #[trigger] v@[k] < total,
            Err(e) => chosen_positions(nums@, total as int) == Err::<Seq<int>, ErrorKind>(e),
        },
{
    let mut out: Vec<usize> = Vec::new();
    let mut i: usize = 0;
    assert(nums@.take(0).len() == 0);
    assert(index_view(out@) =~= seq![]);
    while i < nums.len()
        invariant
            i <= nums.len(),
            total >= 0,
            chosen_positions(nums@.take(i as int), total as int) == Ok::<Seq<int>, ErrorKind>(
                index_view(out@),
            ),
            forall|k: int| 0 <= k < out.len() ==> #[trigger] out@[k] < total,
        decreases nums.len() - i,
    {
        let k = nums[i].to_i32();
        assert(nums@.take(i as int + 1).drop_last() =~= nums@.take(i as int));
        assert(nums@.take(i as int + 1).last() == nums@[i as int]);
        if k == 0 {
            proof {
                lemma_error_persists(nums@, total as int, i as int + 1);
            }
            return Err(ErrorKind::Value);
        }
        let idx: i32 = if k > 0 {
            k - 1
        } else {
            total + k
        };
        if idx < 0 || idx >= total {
            proof {
                lemma_error_persists(nums@, total as int, i as int + 1);
            }
            return Err(ErrorKind::Value);
        }
        let ghost before = index_view(out@);
        out.push(idx as usize);
        assert(index_view(out@) =~= before.push(idx as int));
        i += 1;
    }
    assert(nums@.take(nums.len() as int) =~= nums@);
    Ok(out)
}

proof fn lemma_error_persists(nums: Seq<Number>, total: int, n: int)
    requires
        0 <= n <= nums.len(),
        chosen_positions(nums.take(n), total) == Err::<Seq<int>, ErrorKind>(ErrorKind::Value),
    ensures
        chosen_positions(nums, total) == Err::<Seq<int>, ErrorKind>(ErrorKind::Value),
    decreases nums.len() - n,
{
    if n < nums.len() {
        assert(nums.take(n + 1).drop_last() =~= nums.take(n));
        lemma_error_persists(nums, total, n + 1);
    } else {
        assert(nums.take(n) =~= nums);
    }
}

fn pick_row(row: &Vec<ArrayNode>, idx: &Vec<usize>) -> (r: Vec<ArrayNode>)
    ensures
        row_view(r) == pick(row_view(*row), index_view(idx@)),
{
    let mut out: Vec<ArrayNode> = Vec::new();
    let mut k: usize = 0;
    while k < idx.len()
        invariant
            k <= idx.len(),
            row_view(out) == pick(row_view(*row), index_view(idx@).take(k as int)),
        decreases idx.len() - k,
    {
        let ghost pre = index_view(idx@).take(k as int);
        assert(index_view(idx@).take(k as int + 1).drop_last() =~= pre);
        if idx[k] < row.len() {
            out.push(row[idx[k]].clone());
            assert(row_view(out) =~= pick(row_view(*row), index_view(idx@).take(k as int + 1)));
        }
        k += 1;
    }
    assert(index_view(idx@).take(idx.len() as int) =~= index_view(idx@));
    out
}

impl Model {
    /// CHOOSECOLS(array, col_num1, ...): the chosen columns of every row, in
    /// the order asked (negative numbers count from the last column of the
    /// first row). No column numbers is a wrong number of arguments; an
    /// array without rows gives an empty array.
    pub fn fn_choosecols(&self, array: &CalcResult, columns: &Vec<Number>) -> (r: CalcResult)
        requires
            match spec_to_grid(*array) {
                Ok(d) => width(d) <= i32::MAX,
                Err(_) => true,
            },
        ensures
            columns.len() == 0 ==> is_error(r, ErrorKind::Error),
            columns.len() > 0 ==> match spec_to_grid(*array) {
                Err(e) => is_error(r, e),
                Ok(d) => if d.len() == 0 {
                    is_array(r, seq![])
                } else {
                    match chosen_positions(columns@, width(d)) {
                        Err(e) => is_error(r, e),
                        Ok(idx) => is_array(r, Seq::new(d.len(), |i: int| pick(d[i], idx))),
                    }
                },
            },
    {
        if columns.len() == 0 {
            return CalcResult::Error(ErrorKind::Error);
        }
        let data = match Model::calc_result_to_2d_array(array) {
            Ok(d) => d,
            Err(e) => return CalcResult::Error(e),
        };
        if data.len() == 0 {
            let empty: Grid = Vec::new();
            assert(grid_view(empty) =~= seq![]);
            return CalcResult::Array(empty);
        }
        let total_cols = grid_width(&data) as i32;
        let idx = match resolve_positions(columns, total_cols) {
            Ok(v) => v,
            Err(e) => return CalcResult::Error(e),
        };
        let ghost d = grid_view(data);
        let mut result: Grid = Vec::new();
        let mut i: usize = 0;
        while i < data.len()
            invariant
                i <= data.len(),
                d == grid_view(data),
                result.len() == i,
                forall|k: int|
                    0 <= k < i ==> row_view(#[trigger] result@[k]) == pick(d[k], index_view(idx@)),
            decreases data.len() - i,
        {
            result.push(pick_row(&data[i], &idx));
            i += 1;
        }
        assert(grid_view(result) =~= Seq::new(d.len(), |i: int| pick(d[i], index_view(idx@))));
        CalcResult::Array(result)
    }

    /// CHOOSEROWS(array, row_num1, ...): the chosen rows, in the order asked
    /// (negative numbers count from the last row). No row numbers is a wrong
    /// number of arguments; an array without rows gives an empty array.
    pub fn fn_chooserows(&self, array: &CalcResult, rows: &Vec<Number>) -> (r: CalcResult)
        requires
            match spec_to_grid(*array) {
                Ok(d) => d.len() <= i32::MAX,
                Err(_) => true,
            },
        ensures
            rows.len() == 0 ==> is_error(r, ErrorKind::Error),
            rows.len() > 0 ==> match spec_to_grid(*array) {
                Err(e) => is_error(r, e),
                Ok(d) => if d.len() == 0 {
                    is_array(r, seq![])
                } else {
                    match chosen_positions(rows@, d.len() as int) {
                        Err(e) => is_error(r, e),
                        Ok(idx) => is_array(r, idx.map_values(|i: int| d[i])),
                    }
                },
            },
    {
        if rows.len() == 0 {
            return CalcResult::Error(ErrorKind::Error);
        }
        let data = match Model::calc_result_to_2d_array(array) {
            Ok(d) => d,
            Err(e) => return CalcResult::Error(e),
        };
        if data.len() == 0 {
            let empty: Grid = Vec::new();
            assert(grid_view(empty) =~= seq![]);
            return CalcResult::Array(empty);
        }
        let total_rows = data.len() as i32;
        let idx = match resolve_positions(rows, total_rows) {
            Ok(v) => v,
            Err(e) => return CalcResult::Error(e),
        };
        let ghost d = grid_view(data);
        let mut result: Grid = Vec::new();
        let mut k: usize = 0;
        while k < idx.len()
            invariant
                k <= idx.len(),
                d == grid_view(data),
                forall|m: int| 0 <= m < idx.len() ==> #[trigger] idx@[m] < data.len(),
                result.len() == k,
                forall|m: int| 0 <= m < k ==> row_view(#[trigger] result@[m]) == d[idx@[m] as int],
            decreases idx.len() - k,
        {
            result.push(crate::values::clone_row(&data[idx[k]]));
            k += 1;
        }
        assert(grid_view(result) =~= index_view(idx@).map_values(|i: int| d[i]));
        CalcResult::Array(result)
    }
}


/// The empty text, which pads stacked arrays.
pub open spec fn empty_text() -> NodeV {
    NodeV::Text(Seq::empty())
}

/// `row` padded with empty texts to `w` elements.
pub open spec fn pad_row(row: Seq<NodeV>, w: int, pad: NodeV) -> Seq<NodeV> {
    if row.len() >= w {
        row
    } else {
        row + Seq::new((w - row.len()) as nat, |i: int| pad)
    }
}

/// The arrays of the arguments that have rows, in order, or the error of
/// the first argument that is an error or no array.
pub open spec fn stack_inputs(args: Seq<CalcResult>) -> Result<Seq<Seq<Seq<NodeV>>>, ErrorKind>
    decreases args.len(),
{
    if args.len() == 0 {
        Ok(seq![])
    } else {
        match stack_inputs(args.drop_last()) {
            Err(e) => Err(e),
            Ok(prev) => match spec_to_grid(args.last()) {
                Err(e) => Err(e),
                Ok(g) => Ok(
                    if g.len() > 0 {
                        prev.push(g)
                    } else {
                        prev
                    },
                ),
            },
        }
    }
}

/// The widest first row among the arrays.
pub open spec fn max_width(gs: Seq<Seq<Seq<NodeV>>>) -> int
    decreases gs.len(),
{
    if gs.len() == 0 {
        0
    } else {
        max_int(max_width(gs.drop_last()), width(gs.last()))
    }
}

/// The most rows among the arrays.
pub open spec fn max_height(gs: Seq<Seq<Seq<NodeV>>>) -> int
    decreases gs.len(),
{
    if gs.len() == 0 {
        0
    } else {
        max_int(max_height(gs.drop_last()), gs.last().len() as int)
    }
}

/// The rows of all arrays one after the other, each padded to `w`.
pub open spec fn vstack_rows(gs: Seq<Seq<Seq<NodeV>>>, w: int) -> Seq<Seq<NodeV>>
    decreases gs.len(),
{
    if gs.len() == 0 {
        seq![]
    } else {
        vstack_rows(gs.drop_last(), w) + gs.last().map_values(|row: Seq<NodeV>| pad_row(row, w, empty_text()))
    }
}

/// Row `r` of the arrays side by side: an array without that row
/// contributes as many empty texts as its first row is wide.
pub open spec fn hstack_row(gs: Seq<Seq<Seq<NodeV>>>, r: int) -> Seq<NodeV>
    decreases gs.len(),
{
    if gs.len() == 0 {
        seq![]
    } else {
        let g = gs.last();
        hstack_row(gs.drop_last(), r) + if r < g.len() {
            g[r]
        } else {
            Seq::new(width(g) as nat, |i: int| empty_text())
        }
    }
}

pub open spec fn grids_view(v: Seq<Grid>) -> Seq<Seq<Seq<NodeV>>> {
    v.map_values(|g: Grid| grid_view(g))
}

fn collect_arrays(args: &Vec<CalcResult>) -> (r: Result<Vec<Grid>, ErrorKind>)
    ensures
        match r {
            Ok(v) => stack_inputs(args@) == Ok::<Seq<Seq<Seq<NodeV>>>, ErrorKind>(grids_view(v@)),
            Err(e) => stack_inputs(args@) == Err::<Seq<Seq<Seq<NodeV>>>, ErrorKind>(e),
        },
{
    let mut arrays: Vec<Grid> = Vec::new();
    let mut i: usize = 0;
    assert(args@.take(0).len() == 0);
    assert(grids_view(arrays@) =~= seq![]);
    while i < args.len()
        invariant
            i <= args.len(),
            stack_inputs(args@.take(i as int)) == Ok::<Seq<Seq<Seq<NodeV>>>, ErrorKind>(
                grids_view(arrays@),
            ),
        decreases args.len() - i,
    {
        assert(args@.take(i as int + 1).drop_last() =~= args@.take(i as int));
        assert(args@.take(i as int + 1).last() == args@[i as int]);
        let data = match Model::calc_result_to_2d_array(&args[i]) {
            Ok(d) => d,
            Err(e) => {
                proof {
                    lemma_stack_error_persists(args@, i as int + 1, e);
                }
                return Err(e);
            },
        };
        if data.len() > 0 {
            let ghost before = grids_view(arrays@);
            arrays.push(data);
            assert(grids_view(arrays@) =~= before.push(grid_view(data)));
        }
        i += 1;
    }
    assert(args@.take(args.len() as int) =~= args@);
    Ok(arrays)
}

proof fn lemma_stack_error_persists(args: Seq<CalcResult>, n: int, e: ErrorKind)
    requires
        0 <= n <= args.len(),
        stack_inputs(args.take(n)) == Err::<Seq<Seq<Seq<NodeV>>>, ErrorKind>(e),
    ensures
        stack_inputs(args) == Err::<Seq<Seq<Seq<NodeV>>>, ErrorKind>(e),
    decreases args.len() - n,
{
    if n < args.len() {
        assert(args.take(n + 1).drop_last() =~= args.take(n));
        lemma_stack_error_persists(args, n + 1, e);
    } else {
        assert(args.take(n) =~= args);
    }
}

fn padded_row(row: &Vec<ArrayNode>, w: usize) -> (r: Vec<ArrayNode>)
    ensures
        row_view(r) == pad_row(row_view(*row), w as int, empty_text()),
{
    let mut out = crate::values::clone_row(row);
    let ghost base = row_view(*row);
    while out.len() < w
        invariant
            out.len() >= row.len(),
            out.len() <= w || out.len() == row.len(),
            base == row_view(*row),
            forall|m: int| 0 <= m < row.len() ==> #[trigger] out@[m]@ == base[m],
            forall|m: int| row.len() <= m < out.len() ==> #[trigger] out@[m]@ == empty_text(),
        decreases w - out.len(),
    {
        out.push(ArrayNode::Text(String::new()));
    }
    assert(row_view(out) =~= pad_row(base, w as int, empty_text()));
    out
}

impl Model {
    /// VSTACK(array1, ...): the rows of the arguments one after the other,
    /// every row padded with empty texts to the widest first row. Arguments
    /// without rows are left out; none left is `#VALUE!`; no argument is a
    /// wrong number of arguments. The first error argument is returned.
    pub fn fn_vstack(&self, arrays: &Vec<CalcResult>) -> (r: CalcResult)
        ensures
            arrays.len() == 0 ==> is_error(r, ErrorKind::Error),
            arrays.len() > 0 ==> match stack_inputs(arrays@) {
                Err(e) => is_error(r, e),
                Ok(gs) => {
                    let rows = vstack_rows(gs, max_width(gs));
                    if rows.len() == 0 {
                        is_error(r, ErrorKind::Value)
                    } else {
                        is_array(r, rows)
                    }
                },
            },
    {
        if arrays.len() == 0 {
            return CalcResult::Error(ErrorKind::Error);
        }
        let grids = match collect_arrays(arrays) {
            Ok(g) => g,
            Err(e) => return CalcResult::Error(e),
        };
        let ghost gs = grids_view(grids@);
        let mut max_cols: usize = 0;
        let mut k: usize = 0;
        while k < grids.len()
            invariant
                k <= grids.len(),
                gs == grids_view(grids@),
                max_cols as int == max_width(gs.take(k as int)),
            decreases grids.len() - k,
        {
            assert(gs.take(k as int + 1).drop_last() =~= gs.take(k as int));
            let w = grid_width(&grids[k]);
            if w > max_cols {
                max_cols = w;
            }
            k += 1;
        }
        assert(gs.take(grids.len() as int) =~= gs);
        let mut result: Grid = Vec::new();
        let mut k: usize = 0;
        assert(grid_view(result) =~= vstack_rows(gs.take(0), max_cols as int));
        while k < grids.len()
            invariant
                k <= grids.len(),
                gs == grids_view(grids@),
                grid_view(result) == vstack_rows(gs.take(k as int), max_cols as int),
            decreases grids.len() - k,
        {
            assert(gs.take(k as int + 1).drop_last() =~= gs.take(k as int));
            let ghost before = grid_view(result);
            let g = &grids[k];
            assert(gs[k as int] == grid_view(*g));
            let mut i: usize = 0;
            while i < g.len()
                invariant
                    i <= g.len(),
                    k < grids.len(),
                    gs == grids_view(grids@),
                    gs[k as int] == grid_view(*g),
                    before.len() + i == result.len(),
                    forall|m: int| 0 <= m < before.len() ==> row_view(#[trigger] result@[m]) == before[m],
                    forall|m: int|
                        0 <= m < i ==> row_view(#[trigger] result@[before.len() + m]) == pad_row(
                            gs[k as int][m],
                            max_cols as int,
                            empty_text(),
                        ),
                decreases g.len() - i,
            {
                result.push(padded_row(&g[i], max_cols));
                assert(row_view(result@[before.len() + i]) == pad_row(
                    gs[k as int][i as int],
                    max_cols as int,
                    empty_text(),
                ));
                i += 1;
            }
            assert forall|m: int| 0 <= m < result.len() implies #[trigger] grid_view(result)[m]
                == (before + gs[k as int].map_values(
                |row: Seq<NodeV>| pad_row(row, max_cols as int, empty_text()),
            ))[m] by {
                if m >= before.len() {
                    assert(row_view(result@[before.len() + (m - before.len())]) == pad_row(
                        gs[k as int][m - before.len()],
                        max_cols as int,
                        empty_text(),
                    ));
                }
            }
            assert(grid_view(result) =~= before + gs[k as int].map_values(
                |row: Seq<NodeV>| pad_row(row, max_cols as int, empty_text()),
            ));
            k += 1;
        }
        if result.len() == 0 {
            CalcResult::Error(ErrorKind::Value)
        } else {
            CalcResult::Array(result)
        }
    }

    /// HSTACK(array1, ...): the arguments side by side, row by row, up to
    /// the tallest; an array without a given row contributes empty texts as
    /// wide as its first row. Arguments without rows are left out; none left
    /// is `#VALUE!`; no argument is a wrong number of arguments. The first
    /// error argument is returned.
    pub fn fn_hstack(&self, arrays: &Vec<CalcResult>) -> (r: CalcResult)
        ensures
            arrays.len() == 0 ==> is_error(r, ErrorKind::Error),
            arrays.len() > 0 ==> match stack_inputs(arrays@) {
                Err(e) => is_error(r, e),
                Ok(gs) => if gs.len() == 0 {
                    is_error(r, ErrorKind::Value)
                } else {
                    is_array(r, Seq::new(max_height(gs) as nat, |i: int| hstack_row(gs, i)))
                },
            },
    {
        if arrays.len() == 0 {
            return CalcResult::Error(ErrorKind::Error);
        }
        let grids = match collect_arrays(arrays) {
            Ok(g) => g,
            Err(e) => return CalcResult::Error(e),
        };
        if grids.len() == 0 {
            return CalcResult::Error(ErrorKind::Value);
        }
        let ghost gs = grids_view(grids@);
        let mut max_rows: usize = 0;
        let mut k: usize = 0;
        while k < grids.len()
            invariant
                k <= grids.len(),
                gs == grids_view(grids@),
                max_rows as int == max_height(gs.take(k as int)),
            decreases grids.len() - k,
        {
            assert(gs.take(k as int + 1).drop_last() =~= gs.take(k as int));
            if grids[k].len() > max_rows {
                max_rows = grids[k].len();
            }
            k += 1;
        }
        assert(gs.take(grids.len() as int) =~= gs);
        let mut result: Grid = Vec::new();
        let mut row_idx: usize = 0;
        while row_idx < max_rows
            invariant
                row_idx <= max_rows,
                gs == grids_view(grids@),
                result.len() == row_idx,
                forall|m: int| 0 <= m < row_idx ==> row_view(#[trigger] result@[m]) == hstack_row(gs, m),
            decreases max_rows - row_idx,
        {
            let mut new_row: Vec<ArrayNode> = Vec::new();
            let mut k: usize = 0;
            assert(row_view(new_row) =~= hstack_row(gs.take(0), row_idx as int));
            while k < grids.len()
                invariant
                    k <= grids.len(),
                    gs == grids_view(grids@),
                    row_view(new_row) == hstack_row(gs.take(k as int), row_idx as int),
                decreases grids.len() - k,
            {
                assert(gs.take(k as int + 1).drop_last() =~= gs.take(k as int));
                let ghost before = row_view(new_row);
                let ghost g = gs[k as int];
                let data = &grids[k];
                assert(g == grid_view(*data));
                if row_idx < data.len() {
                    let row = &data[row_idx];
                    assert(row_view(*row) == g[row_idx as int]);
                    let mut j: usize = 0;
                    while j < row.len()
                        invariant
                            j <= row.len(),
                            new_row.len() == before.len() + j,
                            forall|m: int| 0 <= m < before.len() ==> #[trigger] new_row@[m]@ == before[m],
                            forall|m: int| 0 <= m < j ==> #[trigger] new_row@[before.len() + m]@ == row@[m]@,
                        decreases row.len() - j,
                    {
                        new_row.push(row[j].clone());
                        j += 1;
                    }
                    assert forall|m: int| 0 <= m < new_row.len() implies #[trigger] row_view(new_row)[m]
                        == (before + g[row_idx as int])[m] by {
                        if m >= before.len() {
                            assert(new_row@[before.len() + (m - before.len())]@ == row@[m - before.len()]@);
                        }
                    }
                    assert(row_view(new_row) =~= before + g[row_idx as int]);
                } else {
                    let cols = grid_width(data);
                    let mut j: usize = 0;
                    while j < cols
                        invariant
                            j <= cols,
                            new_row.len() == before.len() + j,
                            forall|m: int| 0 <= m < before.len() ==> #[trigger] new_row@[m]@ == before[m],
                            forall|m: int| before.len() <= m < new_row.len() ==> #[trigger] new_row@[m]@ == empty_text(),
                        decreases cols - j,
                    {
                        new_row.push(ArrayNode::Text(String::new()));
                        j += 1;
                    }
                    assert(row_view(new_row) =~= before + Seq::new(width(g) as nat, |i: int| empty_text()));
                }
                assert(gs.take(k as int + 1).last() == g);
                k += 1;
            }
            assert(gs.take(grids.len() as int) =~= gs);
            result.push(new_row);
            row_idx += 1;
        }
        assert(grid_view(result) =~= Seq::new(max_height(gs) as nat, |i: int| hstack_row(gs, i)));
        CalcResult::Array(result)
    }
}


/// The element that pads WRAPROWS, WRAPCOLS, EXPAND and TEXTSPLIT: the
/// given number, text or boolean, the empty text for an empty argument,
/// and `#N/A` for anything else or when none is given.
pub open spec fn pad_value(p: Option<CalcResult>) -> NodeV {
    match p {
        Some(CalcResult::Number(n)) => NodeV::Number(n),
        Some(CalcResult::Text(s)) => NodeV::Text(s@),
        Some(CalcResult::Boolean(b)) => NodeV::Boolean(b),
        Some(CalcResult::EmptyCell) => empty_text(),
        Some(CalcResult::EmptyArg) => empty_text(),
        _ => NodeV::Error(ErrorKind::Na),
    }
}

pub fn pad_node(p: &Option<CalcResult>) -> (n: ArrayNode)
    ensures
        n@ == pad_value(*p),
{
    match p {
        Some(CalcResult::Number(n)) => ArrayNode::Number(*n),
        Some(CalcResult::Text(s)) => ArrayNode::Text(s.clone()),
        Some(CalcResult::Boolean(b)) => ArrayNode::Boolean(*b),
        Some(CalcResult::EmptyCell) => ArrayNode::Text(String::new()),
        Some(CalcResult::EmptyArg) => ArrayNode::Text(String::new()),
        _ => ArrayNode::Error(ErrorKind::Na),
    }
}

/// The number of rows of `w` elements needed for `n` elements.
pub open spec fn ceil_div(n: int, w: int) -> int {
    (n + w - 1) / w
}

proof fn lemma_ceil_div(i: int, n: int, w: int)
    requires
        w > 0,
        n > 0,
        (i - 1) * w < n <= i * w,
    ensures
        i == ceil_div(n, w),
{
    assert(i == (n + w - 1) / w) by (nonlinear_arith)
        requires
            w > 0,
            (i - 1) * w < n <= i * w,
    ;
}

/// `items` laid out row by row in rows of `w`, the last one padded.
pub open spec fn wrap_rows_grid(items: Seq<NodeV>, w: int, pad: NodeV) -> Seq<Seq<NodeV>> {
    Seq::new(
        ceil_div(items.len() as int, w) as nat,
        |i: int|
            Seq::new(
                w as nat,
                |j: int|
                    if i * w + j < items.len() {
                        items[i * w + j]
                    } else {
                        pad
                    },
            ),
    )
}

/// `items` laid out column by column in columns of `w`, the last one padded.
pub open spec fn wrap_cols_grid(items: Seq<NodeV>, w: int, pad: NodeV) -> Seq<Seq<NodeV>> {
    Seq::new(
        w as nat,
        |r: int|
            Seq::new(
                ceil_div(items.len() as int, w) as nat,
                |c: int|
                    if c * w + r < items.len() {
                        items[c * w + r]
                    } else {
                        pad
                    },
            ),
    )
}


/// The elements laid out row by row in rows of `w`, the last row padded.
pub fn wrap_rows(flat: &Vec<ArrayNode>, w: usize, pad: &ArrayNode) -> (result: Grid)
    requires
        w >= 1,
    ensures
        grid_view(result) == wrap_rows_grid(nodes_view(flat@), w as int, pad@),
{
    let ghost items = nodes_view(flat@);
    let n = flat.len();
    if n == 0 {
        let empty: Grid = Vec::new();
        assert(ceil_div(0, w as int) == 0) by (nonlinear_arith)
            requires
                w >= 1,
        ;
        assert(grid_view(empty) =~= wrap_rows_grid(items, w as int, pad@));
        return empty;
    }
    let mut result: Grid = Vec::new();
    let mut pos: usize = 0;
    let ghost mut i: int = 0;
    while pos < n
        invariant
            w >= 1,
            n == flat.len(),
            n > 0,
            items == nodes_view(flat@),
            pos == min_int(i * w, n as int),
            i >= 0,
            i > 0 ==> (i - 1) * w < n,
            result.len() == i,
            forall|m: int|
                0 <= m < i ==> row_view(#[trigger] result@[m]) == Seq::new(
                    w as nat,
                    |j: int|
                        if m * w + j < n {
                            items[m * w + j]
                        } else {
                            pad@
                        },
                ),
        decreases n - pos,
    {
        assert(i * w < n);
        let mut row: Vec<ArrayNode> = Vec::new();
        let mut j: usize = 0;
        while j < w
            invariant
                j <= w,
                n == flat.len(),
                items == nodes_view(flat@),
                i * w < n,
                pos == min_int(i * w + j, n as int),
                row.len() == j,
                forall|k: int|
                    0 <= k < j ==> #[trigger] row@[k]@ == if i * w + k < n {
                        items[i * w + k]
                    } else {
                        pad@
                    },
            decreases w - j,
        {
            if pos < n {
                row.push(flat[pos].clone());
                pos += 1;
            } else {
                row.push(pad.clone());
            }
            j += 1;
        }
        assert(row_view(row) =~= Seq::new(
            w as nat,
            |j: int|
                if i * w + j < n {
                    items[i * w + j]
                } else {
                    pad@
                },
        ));
        result.push(row);
        assert((i + 1) * w == i * w + w) by (nonlinear_arith);
        proof {
            i = i + 1;
        }
    }
    proof {
        lemma_ceil_div(i, n as int, w as int);
    }
    assert(grid_view(result) =~= wrap_rows_grid(items, w as int, pad@));
    result
}


/// The elements laid out column by column in columns of `w`, the last
/// column padded (`w` empty rows when there are no elements).
pub fn wrap_cols(flat: &Vec<ArrayNode>, w: usize, pad: &ArrayNode) -> (result: Grid)
    requires
        w >= 1,
        flat.len() + w - 1 <= usize::MAX,
    ensures
        grid_view(result) == wrap_cols_grid(nodes_view(flat@), w as int, pad@),
{
    let ghost items = nodes_view(flat@);
    if flat.len() == 0 {
        assert(ceil_div(0, w as int) == 0) by (nonlinear_arith)
            requires
                w >= 1,
        ;
        let mut rows: Grid = Vec::new();
        let mut k: usize = 0;
        while k < w
            invariant
                k <= w,
                rows.len() == k,
                forall|m: int| 0 <= m < k ==> #[trigger] rows@[m]@.len() == 0,
            decreases w - k,
        {
            rows.push(Vec::new());
            k += 1;
        }
        assert forall|m: int| 0 <= m < w implies #[trigger] grid_view(rows)[m] =~= wrap_cols_grid(
            items,
            w as int,
            pad@,
        )[m] by {
            assert(rows@[m]@.len() == 0);
        }
        assert(grid_view(rows) =~= wrap_cols_grid(items, w as int, pad@));
        return rows;
    }
        let n = flat.len();
    let num_cols = (n - 1 + w) / w;
    assert(num_cols >= 1) by (nonlinear_arith)
        requires
            num_cols == (n + w - 1) / (w as int),
            n >= 1,
            w >= 1,
    ;
    assert((num_cols - 1) * w <= n - 1) by (nonlinear_arith)
        requires
            num_cols == (n + w - 1) / (w as int),
            n >= 1,
            w >= 1,
    ;
    let mut result: Grid = Vec::new();
    let mut r: usize = 0;
    while r < w
        invariant
            w >= 1,
            n == flat.len(),
            n >= 1,
            num_cols >= 1,
            num_cols == ceil_div(n as int, w as int),
            (num_cols - 1) * w <= n - 1,
            n + w - 1 <= usize::MAX,
            items == nodes_view(flat@),
            r <= w,
            result.len() == r,
            forall|m: int|
                0 <= m < r ==> row_view(#[trigger] result@[m]) == Seq::new(
                    num_cols as nat,
                    |c: int|
                        if c * w + m < n {
                            items[c * w + m]
                        } else {
                            pad@
                        },
                ),
        decreases w - r,
    {
        let mut row: Vec<ArrayNode> = Vec::new();
        let mut c: usize = 0;
        let mut idx: usize = r;
        while c < num_cols
            invariant
                w >= 1,
                r < w,
                n == flat.len(),
                num_cols >= 1,
                (num_cols - 1) * w <= n - 1,
                n + w - 1 <= usize::MAX,
                items == nodes_view(flat@),
                c <= num_cols,
                c < num_cols ==> idx == c * w + r,
                row.len() == c,
                forall|k: int|
                    0 <= k < c ==> #[trigger] row@[k]@ == if k * w + r < n {
                        items[k * w + r]
                    } else {
                        pad@
                    },
            decreases num_cols - c,
        {
            if idx < n {
                row.push(flat[idx].clone());
            } else {
                row.push(pad.clone());
            }
            if c + 1 < num_cols {
                assert((c + 1) * w <= (num_cols - 1) * w) by (nonlinear_arith)
                    requires
                        c + 1 <= num_cols - 1,
                        w >= 1,
                ;
                assert((c + 1) * w == c * w + w) by (nonlinear_arith);
                idx = idx + w;
            } else {
                proof {
                    assert((c + 1) * w == c * w + w) by (nonlinear_arith);
                }
            }
            c += 1;
        }
        assert(row_view(row) =~= Seq::new(
            num_cols as nat,
            |k: int|
                if k * w + r < n {
                    items[k * w + r]
                } else {
                    pad@
                },
        ));
        result.push(row);
        r += 1;
    }
    assert(grid_view(result) =~= wrap_cols_grid(items, w as int, pad@));
    result
}

/// WRAPCOLS can count its columns without overflow.
pub open spec fn wrapcols_fits(vector: CalcResult, wrap_count: Number) -> bool {
    match spec_to_grid(vector) {
        Ok(d) => flatten(d).len() + spec_to_usize(wrap_count) - 1 <= usize::MAX,
        Err(_) => true,
    }
}

impl Model {
    /// WRAPROWS(vector, wrap_count, [pad_with]): the elements, row by row,
    /// in rows of `wrap_count` (truncated toward zero), the last row padded
    /// with `pad_with` (`#N/A` by default). No elements gives an empty array;
    /// a count below one is `#VALUE!`.
    pub fn fn_wraprows(&self, vector: &CalcResult, wrap_count: Number, pad_with: Option<CalcResult>) -> (r: CalcResult)
        ensures
            match spec_to_grid(*vector) {
                Err(e) => is_error(r, e),
                Ok(d) => if flatten(d).len() == 0 {
                    is_array(r, seq![])
                } else if spec_to_usize(wrap_count) < 1 {
                    is_error(r, ErrorKind::Value)
                } else {
                    is_array(r, wrap_rows_grid(flatten(d), spec_to_usize(wrap_count), pad_value(pad_with)))
                },
            },
    {
        let data = match Model::calc_result_to_2d_array(vector) {
            Ok(d) => d,
            Err(e) => return CalcResult::Error(e),
        };
        let flat = flatten_grid(&data);
        let ghost items = nodes_view(flat@);
        if flat.len() == 0 {
            let empty: Grid = Vec::new();
            assert(grid_view(empty) =~= seq![]);
            return CalcResult::Array(empty);
        }
        let w = wrap_count.to_usize();
        if w < 1 {
            return CalcResult::Error(ErrorKind::Value);
        }
        let pad = pad_node(&pad_with);
        CalcResult::Array(wrap_rows(&flat, w, &pad))
    }
}


impl Model {
    /// WRAPCOLS(vector, wrap_count, [pad_with]): the elements, column by
    /// column, in columns of `wrap_count` (truncated toward zero), the last
    /// column padded with `pad_with` (`#N/A` by default). No elements gives
    /// an empty array; a count below one is `#VALUE!`.
    pub fn fn_wrapcols(&self, vector: &CalcResult, wrap_count: Number, pad_with: Option<CalcResult>) -> (r: CalcResult)
        requires
            wrapcols_fits(*vector, wrap_count),
        ensures
            match spec_to_grid(*vector) {
                Err(e) => is_error(r, e),
                Ok(d) => if flatten(d).len() == 0 {
                    is_array(r, seq![])
                } else if spec_to_usize(wrap_count) < 1 {
                    is_error(r, ErrorKind::Value)
                } else {
                    is_array(r, wrap_cols_grid(flatten(d), spec_to_usize(wrap_count), pad_value(pad_with)))
                },
            },
    {
        let data = match Model::calc_result_to_2d_array(vector) {
            Ok(d) => d,
            Err(e) => return CalcResult::Error(e),
        };
        let flat = flatten_grid(&data);
        let ghost items = nodes_view(flat@);
        if flat.len() == 0 {
            let empty: Grid = Vec::new();
            assert(grid_view(empty) =~= seq![]);
            return CalcResult::Array(empty);
        }
        let w = wrap_count.to_usize();
        if w < 1 {
            return CalcResult::Error(ErrorKind::Value);
        }
        let pad = pad_node(&pad_with);
        CalcResult::Array(wrap_cols(&flat, w, &pad))
    }
}

/// EXPAND's result: `d` grown to `rows` by `cols`, every place outside
/// the array's own rows and width (or past the end of a shorter row) holding
/// `pad`.
pub open spec fn expand_grid(d: Seq<Seq<NodeV>>, rows: int, cols: int, pad: NodeV) -> Seq<Seq<NodeV>> {
    Seq::new(
        rows as nat,
        |r: int|
            Seq::new(
                cols as nat,
                |c: int|
                    if r < d.len() && c < width(d) && c < d[r].len() {
                        d[r][c]
                    } else {
                        pad
                    },
            ),
    )
}

impl Model {
    /// EXPAND(array, rows, [columns], [pad_with]): the array grown to at
    /// least `rows` rows and `columns` columns (each truncated toward zero,
    /// and never below the array's own size), padded with `pad_with`
    /// (`#N/A` by default).
    pub fn fn_expand(&self, array: &CalcResult, rows: Number, columns: Option<Number>, pad_with: Option<CalcResult>) -> (r: CalcResult)
        ensures
            match spec_to_grid(*array) {
                Err(e) => is_error(r, e),
                Ok(d) => is_array(
                    r,
                    expand_grid(
                        d,
                        max_int(spec_to_usize(rows), d.len() as int),
                        match columns {
                            Some(c) => max_int(spec_to_usize(c), width(d)),
                            None => width(d),
                        },
                        pad_value(pad_with),
                    ),
                ),
            },
    {
        let data = match Model::calc_result_to_2d_array(array) {
            Ok(d) => d,
            Err(e) => return CalcResult::Error(e),
        };
        let ghost d = grid_view(data);
        let source_rows = data.len();
        let source_cols = grid_width(&data);
        let asked_rows = rows.to_usize();
        let target_rows = if asked_rows > source_rows { asked_rows } else { source_rows };
        let target_cols = match columns {
            Some(c) => {
                let asked = c.to_usize();
                if asked > source_cols { asked } else { source_cols }
            },
            None => source_cols,
        };
        let pad = pad_node(&pad_with);
        let mut result: Grid = Vec::new();
        let mut i: usize = 0;
        while i < target_rows
            invariant
                d == grid_view(data),
                source_rows == data.len(),
                source_cols == width(d),
                i <= target_rows,
                result.len() == i,
                forall|m: int|
                    0 <= m < i ==> row_view(#[trigger] result@[m]) == expand_grid(
                        d,
                        target_rows as int,
                        target_cols as int,
                        pad@,
                    )[m],
            decreases target_rows - i,
        {
            let mut row: Vec<ArrayNode> = Vec::new();
            let mut j: usize = 0;
            while j < target_cols
                invariant
                    d == grid_view(data),
                    source_rows == data.len(),
                    source_cols == width(d),
                    i < target_rows,
                    j <= target_cols,
                    row.len() == j,
                    forall|k: int|
                        0 <= k < j ==> #[trigger] row@[k]@ == if i < d.len() && k < width(d) && k
                            < d[i as int].len() {
                            d[i as int][k]
                        } else {
                            pad@
                        },
                decreases target_cols - j,
            {
                if i < source_rows && j < source_cols && j < data[i].len() {
                    row.push(data[i][j].clone());
                } else {
                    row.push(pad.clone());
                }
                j += 1;
            }
            assert(row_view(row) =~= expand_grid(d, target_rows as int, target_cols as int, pad@)[i as int]);
            result.push(row);
            i += 1;
        }
        assert(grid_view(result) =~= expand_grid(d, target_rows as int, target_cols as int, pad@));
        CalcResult::Array(result)
    }
}


/// The pieces of `s` between the occurrences of `d`, or `s` whole when
/// `d` is empty.
pub open spec fn pieces(s: Seq<char>, d: Seq<char>) -> Seq<Seq<char>> {
    if d.len() == 0 {
        seq![s]
    } else {
        split(s, d)
    }
}

/// The non-empty texts among the first `n` of `p`, in order.
pub open spec fn drop_empty(p: Seq<Seq<char>>, n: int) -> Seq<Seq<char>>
    decreases n,
{
    if n <= 0 {
        seq![]
    } else if p[n - 1].len() > 0 {
        drop_empty(p, n - 1).push(p[n - 1])
    } else {
        drop_empty(p, n - 1)
    }
}

/// One line of TEXTSPLIT: its pieces, the empty ones left out on request.
pub open spec fn split_line(line: Seq<char>, cd: Seq<char>, ignore_empty: bool) -> Seq<Seq<char>> {
    let p = pieces(line, cd);
    if ignore_empty {
        drop_empty(p, p.len() as int)
    } else {
        p
    }
}

/// The first `n` lines split into pieces; with `ignore_empty`, lines with
/// no piece left are dropped.
pub open spec fn split_lines(lines: Seq<Seq<char>>, cd: Seq<char>, ignore_empty: bool, n: int) -> Seq<Seq<Seq<char>>>
    decreases n,
{
    if n <= 0 {
        seq![]
    } else {
        let row = split_line(lines[n - 1], cd, ignore_empty);
        if ignore_empty && row.len() == 0 {
            split_lines(lines, cd, ignore_empty, n - 1)
        } else {
            split_lines(lines, cd, ignore_empty, n - 1).push(row)
        }
    }
}

/// The row delimiter of TEXTSPLIT: a non-empty text, else none.
pub open spec fn line_delimiter(p: Option<CalcResult>) -> Option<Seq<char>> {
    match p {
        Some(CalcResult::Text(s)) => if s@.len() > 0 {
            Some(s@)
        } else {
            None
        },
        _ => None,
    }
}

/// The lines of `text`: cut at the row delimiter, or the whole text.
pub open spec fn text_lines(text: Seq<char>, rd: Option<Seq<char>>) -> Seq<Seq<char>> {
    match rd {
        Some(d) => split(text, d),
        None => seq![text],
    }
}

/// The greatest number of pieces among the first `n` rows.
pub open spec fn longest(rows: Seq<Seq<Seq<char>>>, n: int) -> int
    decreases n,
{
    if n <= 0 {
        0
    } else {
        max_int(longest(rows, n - 1), rows[n - 1].len() as int)
    }
}

/// Texts as array elements.
pub open spec fn text_nodes(p: Seq<Seq<char>>) -> Seq<NodeV> {
    p.map_values(|x: Seq<char>| NodeV::Text(x))
}

/// The rows of pieces as an array, each padded to the longest row.
pub open spec fn textsplit_grid(rows: Seq<Seq<Seq<char>>>, pad: NodeV) -> Seq<Seq<NodeV>> {
    Seq::new(
        rows.len(),
        |i: int| pad_row(text_nodes(rows[i]), longest(rows, rows.len() as int), pad),
    )
}

/// What TEXTSPLIT gives for the rows of pieces: the empty text for none,
/// the one piece itself for a single piece, else the padded array.
pub open spec fn textsplit_result(r: CalcResult, rows: Seq<Seq<Seq<char>>>, pad: NodeV) -> bool {
    if rows.len() == 0 {
        is_text(r, seq![])
    } else if rows.len() == 1 && rows[0].len() == 1 {
        is_text(r, rows[0][0])
    } else {
        is_array(r, textsplit_grid(rows, pad))
    }
}

pub open spec fn rows_view(v: Seq<Vec<Vec<char>>>) -> Seq<Seq<Seq<char>>> {
    v.map_values(|r: Vec<Vec<char>>| pieces_view(r@))
}

fn line_pieces(line: &Vec<char>, cd: &Vec<char>, ignore_empty: bool) -> (r: Vec<Vec<char>>)
    ensures
        pieces_view(r@) == split_line(line@, cd@, ignore_empty),
{
    let all: Vec<Vec<char>> = if cd.len() == 0 {
        let mut one: Vec<Vec<char>> = Vec::new();
        one.push(slice_chars(line, 0, line.len()));
        assert(line@.subrange(0, line@.len() as int) =~= line@);
        assert(pieces_view(one@) =~= seq![line@]);
        one
    } else {
        split_chars(line, cd)
    };
    if !ignore_empty {
        return all;
    }
    let ghost p = pieces_view(all@);
    let mut kept: Vec<Vec<char>> = Vec::new();
    let mut i: usize = 0;
    while i < all.len()
        invariant
            i <= all.len(),
            p == pieces_view(all@),
            pieces_view(kept@) == drop_empty(p, i as int),
        decreases all.len() - i,
    {
        if all[i].len() > 0 {
            let piece = slice_chars(&all[i], 0, all[i].len());
            assert(all@[i as int]@.subrange(0, all@[i as int]@.len() as int) =~= all@[i as int]@);
            kept.push(piece);
            assert(pieces_view(kept@) =~= drop_empty(p, i as int).push(p[i as int]));
        }
        i += 1;
    }
    kept
}

fn text_row(row: &Vec<Vec<char>>, w: usize, pad: &ArrayNode) -> (r: Vec<ArrayNode>)
    ensures
        row_view(r) == pad_row(text_nodes(pieces_view(row@)), w as int, pad@),
{
    let mut out: Vec<ArrayNode> = Vec::new();
    let mut j: usize = 0;
    while j < row.len()
        invariant
            j <= row.len(),
            out.len() == j,
            forall|m: int| 0 <= m < j ==> #[trigger] out@[m]@ == NodeV::Text(row@[m]@),
        decreases row.len() - j,
    {
        out.push(ArrayNode::Text(string_of(&row[j])));
        j += 1;
    }
    let mut k: usize = row.len();
    while k < w
        invariant
            row.len() <= k,
            k <= w || k == row.len(),
            out.len() == k,
            forall|m: int| 0 <= m < row.len() ==> #[trigger] out@[m]@ == NodeV::Text(row@[m]@),
            forall|m: int| row.len() <= m < k ==> #[trigger] out@[m]@ == pad@,
        decreases w - k,
    {
        out.push(pad.clone());
        k += 1;
    }
    assert(row_view(out) =~= pad_row(text_nodes(pieces_view(row@)), w as int, pad@));
    out
}

impl Model {
    /// TEXTSPLIT(text, col_delimiter, [row_delimiter], [ignore_empty], ..,
    /// [pad_with]): the text cut into lines at a non-empty text row
    /// delimiter (any other value cuts nothing), each line cut into pieces
    /// at the column delimiter (an empty one cuts nothing); with
    /// `ignore_empty` empty pieces and lines with no piece are left out.
    /// Short rows are padded with `pad_with` (`#N/A` by default); no rows
    /// gives the empty text and a single piece gives that piece.
    pub fn fn_textsplit(
        &self,
        text: &str,
        col_delimiter: &str,
        row_delimiter: Option<CalcResult>,
        ignore_empty: bool,
        pad_with: Option<CalcResult>,
    ) -> (r: CalcResult)
        ensures
            textsplit_result(
                r,
                split_lines(
                    text_lines(text@, line_delimiter(row_delimiter)),
                    col_delimiter@,
                    ignore_empty,
                    text_lines(text@, line_delimiter(row_delimiter)).len() as int,
                ),
                pad_value(pad_with),
            ),
    {
        let t = chars_of(text);
        let cd = chars_of(col_delimiter);
        let lines: Vec<Vec<char>> = match &row_delimiter {
            Some(CalcResult::Text(s)) => {
                let rd = chars_of(s.as_str());
                if rd.len() > 0 {
                    split_chars(&t, &rd)
                } else {
                    let mut one: Vec<Vec<char>> = Vec::new();
                    one.push(t);
                    assert(pieces_view(one@) =~= seq![text@]);
                    one
                }
            },
            _ => {
                let mut one: Vec<Vec<char>> = Vec::new();
                one.push(t);
                assert(pieces_view(one@) =~= seq![text@]);
                one
            },
        };
        let ghost ls = pieces_view(lines@);
        assert(ls == text_lines(text@, line_delimiter(row_delimiter)));
        let mut rows: Vec<Vec<Vec<char>>> = Vec::new();
        let mut widest: usize = 0;
        let mut i: usize = 0;
        while i < lines.len()
            invariant
                i <= lines.len(),
                ls == pieces_view(lines@),
                rows_view(rows@) == split_lines(ls, cd@, ignore_empty, i as int),
                widest == longest(rows_view(rows@), rows.len() as int),
                rows.len() <= i,
            decreases lines.len() - i,
        {
            let row = line_pieces(&lines[i], &cd, ignore_empty);
            if !(ignore_empty && row.len() == 0) {
                let ghost before = rows_view(rows@);
                if row.len() > widest {
                    widest = row.len();
                }
                rows.push(row);
                assert(rows_view(rows@) =~= before.push(pieces_view(row@)));
                assert(rows_view(rows@).drop_last() =~= before);
                proof {
                    lemma_longest_prefix(rows_view(rows@), before, before.len() as int);
                }
            }
            i += 1;
        }
        let ghost rs = rows_view(rows@);
        if rows.len() == 0 {
            return CalcResult::Text(String::new());
        }
        if rows.len() == 1 && rows[0].len() == 1 {
            return CalcResult::Text(string_of(&rows[0][0]));
        }
        let pad = pad_node(&pad_with);
        let mut result: Grid = Vec::new();
        let mut k: usize = 0;
        while k < rows.len()
            invariant
                k <= rows.len(),
                rs == rows_view(rows@),
                widest == longest(rs, rs.len() as int),
                result.len() == k,
                forall|m: int| 0 <= m < k ==> row_view(#[trigger] result@[m]) == textsplit_grid(rs, pad@)[m],
            decreases rows.len() - k,
        {
            result.push(text_row(&rows[k], widest, &pad));
            k += 1;
        }
        assert(grid_view(result) =~= textsplit_grid(rs, pad@));
        CalcResult::Array(result)
    }
}

proof fn lemma_longest_prefix(a: Seq<Seq<Seq<char>>>, b: Seq<Seq<Seq<char>>>, n: int)
    requires
        0 <= n <= b.len(),
        b.len() <= a.len(),
        forall|i: int| 0 <= i < b.len() ==> a[i] == b[i],
    ensures
        longest(a, n) == longest(b, n),
    decreases n,
{
    if n > 0 {
        lemma_longest_prefix(a, b, n - 1);
    }
}


/// A count of RANDARRAY: truncated toward zero to `i32`, one by default.
pub open spec fn count_or_one(n: Option<Number>) -> int {
    match n {
        Some(x) => spec_to_i32(x),
        None => 1,
    }
}

/// A bound of RANDARRAY in billionths, `default` when not given.
pub open spec fn bound_or(n: Option<Number>, default: int) -> int {
    match n {
        Some(x) => x.scaled as int,
        None => default,
    }
}

impl Model {
    /// The checks of RANDARRAY([rows], [columns], [min], [max], ..): fewer
    /// than one row or column, or a minimum above the maximum (0 and 1 by
    /// default), is `#VALUE!`; otherwise the size of the array to fill with
    /// random numbers.
    pub fn randarray_shape(
        &self,
        rows: Option<Number>,
        columns: Option<Number>,
        min: Option<Number>,
        max: Option<Number>,
    ) -> (r: Result<(usize, usize), ErrorKind>)
        ensures
            if count_or_one(rows) < 1 || count_or_one(columns) < 1 || bound_or(min, 0) > bound_or(max, SCALE as int) {
                r == Err::<(usize, usize), ErrorKind>(ErrorKind::Value)
            } else {
                r matches Ok((nr, nc)) && nr == count_or_one(rows) && nc == count_or_one(columns)
            },
    {
        let nr: i32 = match rows {
            Some(x) => x.to_i32(),
            None => 1,
        };
        if nr < 1 {
            return Err(ErrorKind::Value);
        }
        let nc: i32 = match columns {
            Some(x) => x.to_i32(),
            None => 1,
        };
        if nc < 1 {
            return Err(ErrorKind::Value);
        }
        let lo: i128 = match min {
            Some(x) => x.scaled,
            None => 0,
        };
        let hi: i128 = match max {
            Some(x) => x.scaled,
            None => SCALE,
        };
        if lo > hi {
            return Err(ErrorKind::Value);
        }
        Ok((nr as usize, nc as usize))
    }
}

} // verus!
