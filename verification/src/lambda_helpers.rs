use vstd::prelude::*;

use crate::model::Model;
use crate::number::{Number, spec_to_usize};
use crate::values::{ArrayNode, CalcResult, ErrorKind, Grid, NodeV};

verus! {

/// The number whose value in billionths is `x`.
pub open spec fn number_of(x: int) -> NodeV {
    NodeV::Number(Number { scaled: x as i128 })
}

/// The rows of a grid, each as the sequence of its elements.
pub open spec fn rows_of(g: Grid) -> Seq<Seq<ArrayNode>> {
    g@.map_values(|r: Vec<ArrayNode>| r@)
}

/// The rows of a grid joined into one sequence, row by row.
pub open spec fn flat<T>(g: Seq<Seq<T>>) -> Seq<T>
    decreases g.len(),
{
    if g.len() == 0 {
        seq![]
    } else {
        flat(g.drop_last()) + g.last()
    }
}

/// `h` has as many rows as `g`, each as long as the row of `g`.
pub open spec fn shaped_like<T, U>(h: Seq<Seq<T>>, g: Seq<Seq<U>>) -> bool {
    &&& h.len() == g.len()
    &&& forall|i: int| 0 <= i < g.len() ==> #[trigger] h[i].len() == g[i].len()
}

/// A result that a lambda helper reads as an array: an array, or a single
/// number, text or boolean taken as a one-by-one array.
pub open spec fn takes_grid(c: CalcResult) -> bool {
    c is Array || c is Number || c is Text || c is Boolean
}

/// The array a lambda helper works on.
pub open spec fn lambda_grid(c: CalcResult) -> Seq<Seq<ArrayNode>> {
    match c {
        CalcResult::Array(a) => rows_of(a),
        CalcResult::Number(n) => seq![seq![ArrayNode::Number(n)]],
        CalcResult::Text(s) => seq![seq![ArrayNode::Text(s)]],
        CalcResult::Boolean(b) => seq![seq![ArrayNode::Boolean(b)]],
        _ => seq![],
    }
}

/// What a lambda helper answers for a value it cannot read as an array: the
/// error itself, or `#VALUE!`.
pub open spec fn not_a_grid(c: CalcResult) -> CalcResult {
    match c {
        CalcResult::Error(e) => CalcResult::Error(e),
        _ => CalcResult::Error(ErrorKind::Value),
    }
}

/// The element an initial value of REDUCE or SCAN is passed to the lambda
/// as (anything that is not a number, text, boolean or error as zero).
pub open spec fn initial_node(c: CalcResult) -> ArrayNode {
    match c {
        CalcResult::Number(n) => ArrayNode::Number(n),
        CalcResult::Text(s) => ArrayNode::Text(s),
        CalcResult::Boolean(b) => ArrayNode::Boolean(b),
        CalcResult::Error(e) => ArrayNode::Error(e),
        _ => ArrayNode::Number(Number { scaled: 0 }),
    }
}

/// The result an element stands for.
pub open spec fn node_result(n: ArrayNode) -> CalcResult {
    match n {
        ArrayNode::Number(x) => CalcResult::Number(x),
        ArrayNode::Text(s) => CalcResult::Text(s),
        ArrayNode::Boolean(b) => CalcResult::Boolean(b),
        ArrayNode::Error(e) => CalcResult::Error(e),
    }
}

/// `h` is `g` with `f` applied to each element: every `h[i][j]` is a result
/// `f` may give for `g[i][j]`.
pub open spec fn mapped<F: Fn(ArrayNode) -> ArrayNode>(f: F, g: Seq<Seq<ArrayNode>>, h: Seq<Seq<ArrayNode>>) -> bool {
    &&& shaped_like(h, g)
    &&& forall|i: int, j: int|
        0 <= i < g.len() && 0 <= j < g[i].len() ==> call_ensures(f, (g[i][j],), #[trigger] h[i][j])
}

/// `steps` are the accumulators of folding `f` over `items` from `init`:
/// `steps[0]` is `init` and each next one is a result `f` may give for the
/// one before and the next item.
pub open spec fn folds<F: Fn(ArrayNode, ArrayNode) -> ArrayNode>(
    f: F,
    init: ArrayNode,
    items: Seq<ArrayNode>,
    steps: Seq<ArrayNode>,
) -> bool {
    &&& steps.len() == items.len() + 1
    &&& steps[0] == init
    &&& forall|k: int| 0 <= k < items.len() ==> call_ensures(f, (steps[k], items[k]), #[trigger] steps[k + 1])
}

/// `out` is a result `f` may give for a vector holding `items`.
pub open spec fn applied<F: Fn(Vec<ArrayNode>) -> ArrayNode>(f: F, items: Seq<ArrayNode>, out: ArrayNode) -> bool {
    exists|v: Vec<ArrayNode>| v@ == items && call_ensures(f, (v,), out)
}

/// Each row of `h` holds one element, a result `f` may give for the row of
/// `g` in the same place.
pub open spec fn applied_rows<F: Fn(Vec<ArrayNode>) -> ArrayNode>(
    f: F,
    g: Seq<Seq<ArrayNode>>,
    h: Seq<Seq<ArrayNode>>,
) -> bool {
    &&& h.len() == g.len()
    &&& forall|i: int| 0 <= i < g.len() ==> #[trigger] h[i].len() == 1 && applied(f, g[i], h[i][0])
}

/// The elements in column `c` of the rows, top to bottom (rows too short
/// for the column contribute nothing).
pub open spec fn column_items(rows: Seq<Seq<ArrayNode>>, c: int) -> Seq<ArrayNode>
    decreases rows.len(),
{
    if rows.len() == 0 {
        seq![]
    } else {
        column_items(rows.drop_last(), c) + if 0 <= c < rows.last().len() {
            seq![rows.last()[c]]
        } else {
            seq![]
        }
    }
}

/// `f` gives one result for each argument.
pub open spec fn single_valued<F: Fn(ArrayNode, ArrayNode) -> ArrayNode>(f: F) -> bool {
    forall|a: ArrayNode, x: ArrayNode, y: ArrayNode, z: ArrayNode|
        call_ensures(f, (a, x), y) && call_ensures(f, (a, x), z) ==> y == z
}

proof fn lemma_flat_take<T>(g: Seq<Seq<T>>, i: int)
    requires
        0 <= i < g.len(),
    ensures
        flat(g.take(i + 1)) == flat(g.take(i)) + g[i],
{
    assert(g.take(i + 1).drop_last() =~= g.take(i));
}

proof fn lemma_flat_len_mono<T>(g: Seq<Seq<T>>, i: int)
    requires
        0 <= i <= g.len(),
    ensures
        flat(g.take(i)).len() <= flat(g).len(),
    decreases g.len() - i,
{
    if i < g.len() {
        lemma_flat_take(g, i);
        lemma_flat_len_mono(g, i + 1);
    } else {
        assert(g.take(i) =~= g);
    }
}

fn copy_node(n: &ArrayNode) -> (r: ArrayNode)
    ensures
        r == *n,
{
    n.clone()
}

fn copy_row(r: &Vec<ArrayNode>) -> (c: Vec<ArrayNode>)
    ensures
        c@ == r@,
{
    let mut c: Vec<ArrayNode> = Vec::new();
    let mut i: usize = 0;
    while i < r.len()
        invariant
            i <= r.len(),
            c@ == r@.take(i as int),
        decreases r.len() - i,
    {
        c.push(copy_node(&r[i]));
        assert(r@.take(i as int + 1) == r@.take(i as int).push(r@[i as int]));
        i += 1;
    }
    assert(r@.take(r.len() as int) == r@);
    c
}

/// The one-by-one grid holding `n`.
fn single_grid(n: ArrayNode) -> (g: Grid)
    ensures
        rows_of(g) == seq![seq![n]],
{
    let mut row: Vec<ArrayNode> = Vec::new();
    row.push(n);
    let mut g: Grid = Vec::new();
    g.push(row);
    assert(rows_of(g) =~= seq![seq![n]]);
    g
}

/// The array a lambda helper works on, for a result it reads as one.
fn grid_of(c: &CalcResult) -> (g: Grid)
    requires
        takes_grid(*c),
    ensures
        rows_of(g) == lambda_grid(*c),
{
    match c {
        CalcResult::Array(a) => {
            let mut g: Grid = Vec::new();
            let mut i: usize = 0;
            while i < a.len()
                invariant
                    i <= a.len(),
                    g.len() == i,
                    forall|k: int| 0 <= k < i ==> #[trigger] g@[k]@ == a@[k]@,
                decreases a.len() - i,
            {
                g.push(copy_row(&a[i]));
                i += 1;
            }
            assert(rows_of(g) =~= rows_of(*a));
            g
        },
        CalcResult::Number(n) => single_grid(ArrayNode::Number(*n)),
        CalcResult::Text(s) => single_grid(ArrayNode::Text(s.clone())),
        CalcResult::Boolean(b) => single_grid(ArrayNode::Boolean(*b)),
        _ => Vec::new(),
    }
}

fn is_grid(c: &CalcResult) -> (b: bool)
    ensures
        b == takes_grid(*c),
{
    match c {
        CalcResult::Array(_) => true,
        CalcResult::Number(_) => true,
        CalcResult::Text(_) => true,
        CalcResult::Boolean(_) => true,
        _ => false,
    }
}

fn answer_for_not_a_grid(c: &CalcResult) -> (r: CalcResult)
    ensures
        r == not_a_grid(*c),
{
    match c {
        CalcResult::Error(e) => CalcResult::Error(*e),
        _ => CalcResult::Error(ErrorKind::Value),
    }
}

fn first_node(c: &CalcResult) -> (r: ArrayNode)
    ensures
        r == initial_node(*c),
{
    match c {
        CalcResult::Number(n) => ArrayNode::Number(*n),
        CalcResult::Text(s) => ArrayNode::Text(s.clone()),
        CalcResult::Boolean(b) => ArrayNode::Boolean(*b),
        CalcResult::Error(e) => ArrayNode::Error(*e),
        _ => ArrayNode::Number(Number::from_int(0)),
    }
}

fn result_of_node(n: ArrayNode) -> (r: CalcResult)
    ensures
        r == node_result(n),
{
    match n {
        ArrayNode::Number(x) => CalcResult::Number(x),
        ArrayNode::Text(s) => CalcResult::Text(s),
        ArrayNode::Boolean(b) => CalcResult::Boolean(b),
        ArrayNode::Error(e) => CalcResult::Error(e),
    }
}

/// The elements of a grid, row by row.
fn flat_items(g: &Grid) -> (r: Vec<ArrayNode>)
    ensures
        r@ == flat(rows_of(*g)),
{
    let ghost rows = rows_of(*g);
    let mut r: Vec<ArrayNode> = Vec::new();
    let mut i: usize = 0;
    while i < g.len()
        invariant
            i <= g.len(),
            rows == rows_of(*g),
            r@ == flat(rows.take(i as int)),
        decreases g.len() - i,
    {
        let ghost before = r@;
        let mut j: usize = 0;
        while j < g[i].len()
            invariant
                i < g.len(),
                j <= g[i as int].len(),
                r@ == before + g[i as int]@.take(j as int),
            decreases g[i as int].len() - j,
        {
            r.push(copy_node(&g[i][j]));
            assert(g[i as int]@.take(j as int + 1) =~= g[i as int]@.take(j as int).push(g[i as int]@[j as int]));
            j += 1;
        }
        proof {
            assert(g[i as int]@.take(j as int) =~= rows[i as int]);
            lemma_flat_take(rows, i as int);
        }
        i += 1;
    }
    assert(rows.take(g.len() as int) =~= rows);
    r
}

/// The elements of `items` cut into rows as long as those of `shape`.
fn reshape(items: &Vec<ArrayNode>, shape: &Grid) -> (r: Grid)
    requires
        items.len() == flat(rows_of(*shape)).len(),
    ensures
        shaped_like(rows_of(r), rows_of(*shape)),
        flat(rows_of(r)) == items@,
{
    let ghost d = rows_of(*shape);
    let mut out: Grid = Vec::new();
    let mut off: usize = 0;
    let mut i: usize = 0;
    assert(d.take(0) =~= Seq::<Seq<ArrayNode>>::empty());
    assert(rows_of(out) =~= Seq::<Seq<ArrayNode>>::empty());
    while i < shape.len()
        invariant
            i <= shape.len(),
            d == rows_of(*shape),
            items.len() == flat(d).len(),
            off == flat(d.take(i as int)).len(),
            out.len() == i,
            forall|m: int| 0 <= m < i ==> #[trigger] rows_of(out)[m].len() == d[m].len(),
            flat(rows_of(out)) == items@.take(off as int),
        decreases shape.len() - i,
    {
        proof {
            lemma_flat_take(d, i as int);
            lemma_flat_len_mono(d, i as int + 1);
        }
        let len = shape[i].len();
        let mut row: Vec<ArrayNode> = Vec::new();
        let mut j: usize = 0;
        while j < len
            invariant
                j <= len,
                off + len <= items.len(),
                row@ == items@.subrange(off as int, off + j),
            decreases len - j,
        {
            row.push(copy_node(&items[off + j]));
            assert(items@.subrange(off as int, off + j + 1) =~= items@.subrange(off as int, off + j).push(
                items@[off + j],
            ));
            j += 1;
        }
        let ghost before = rows_of(out);
        out.push(row);
        proof {
            assert(rows_of(out) =~= before.push(row@));
            lemma_flat_take(rows_of(out), i as int);
            assert(rows_of(out).take(i as int + 1) =~= rows_of(out));
            assert(rows_of(out).take(i as int) =~= before);
            assert(items@.take(off + len) =~= items@.take(off as int) + items@.subrange(off as int, off + len));
        }
        off = off + len;
        i += 1;
    }
    assert(d.take(shape.len() as int) =~= d);
    assert(items@.take(off as int) =~= items@);
    out
}

/// The accumulators of folding `f` over `items` from `init`, the first one
/// left out.
fn scan_items<F: Fn(ArrayNode, ArrayNode) -> ArrayNode>(f: &F, init: &ArrayNode, items: &Vec<ArrayNode>) -> (r: Vec<
    ArrayNode,
>)
    requires
        forall|a: ArrayNode, x: ArrayNode| call_requires(*f, (a, x)),
    ensures
        folds(*f, *init, items@, seq![*init] + r@),
{
    let mut out: Vec<ArrayNode> = Vec::new();
    let mut acc: ArrayNode = copy_node(init);
    let mut k: usize = 0;
    while k < items.len()
        invariant
            k <= items.len(),
            forall|a: ArrayNode, x: ArrayNode| call_requires(*f, (a, x)),
            out.len() == k,
            acc == (seq![*init] + out@)[k as int],
            folds(*f, *init, items@.take(k as int), seq![*init] + out@),
        decreases items.len() - k,
    {
        let next = f(copy_node(&acc), copy_node(&items[k]));
        let ghost before = seq![*init] + out@;
        out.push(copy_node(&next));
        proof {
            let steps = seq![*init] + out@;
            assert(steps =~= before.push(next));
            assert forall|m: int| 0 <= m < k + 1 implies call_ensures(
                *f,
                (steps[m], items@.take(k as int + 1)[m]),
                #[trigger] steps[m + 1],
            ) by {
                if m < k {
                    assert(items@.take(k as int + 1)[m] == items@.take(k as int)[m]);
                    assert(call_ensures(*f, (before[m], items@.take(k as int)[m]), before[m + 1]));
                }
            }
        }
        acc = next;
        k += 1;
    }
    assert(items@.take(items.len() as int) =~= items@);
    out
}

impl Model {
    /// MAP(array, lambda): the array with the lambda applied to each element
    /// (a single number, text or boolean taken as a one-by-one array); an
    /// error stays the error, anything else is `#VALUE!`.
    pub fn fn_map<F: Fn(ArrayNode) -> ArrayNode>(&self, array: &CalcResult, lambda: F) -> (r: CalcResult)
        requires
            forall|x: ArrayNode| call_requires(lambda, (x,)),
        ensures
            takes_grid(*array) ==> (r is Array && mapped(lambda, lambda_grid(*array), rows_of(r->Array_0))),
            !takes_grid(*array) ==> r == not_a_grid(*array),
    {
        if !is_grid(array) {
            return answer_for_not_a_grid(array);
        }
        let g = grid_of(array);
        let ghost rows = rows_of(g);
        let mut out: Grid = Vec::new();
        let mut i: usize = 0;
        while i < g.len()
            invariant
                i <= g.len(),
                rows == rows_of(g),
                rows == lambda_grid(*array),
                forall|x: ArrayNode| call_requires(lambda, (x,)),
                out.len() == i,
                forall|m: int| 0 <= m < i ==> #[trigger] out@[m]@.len() == rows[m].len(),
                forall|m: int, j: int|
                    0 <= m < i && 0 <= j < rows[m].len() ==> call_ensures(lambda, (rows[m][j],), #[trigger] out@[m]@[j]),
            decreases g.len() - i,
        {
            let mut row: Vec<ArrayNode> = Vec::new();
            let mut j: usize = 0;
            while j < g[i].len()
                invariant
                    i < g.len(),
                    rows == rows_of(g),
                    forall|x: ArrayNode| call_requires(lambda, (x,)),
                    j <= g[i as int].len(),
                    row.len() == j,
                    forall|k: int| 0 <= k < j ==> call_ensures(lambda, (rows[i as int][k],), #[trigger] row@[k]),
                decreases g[i as int].len() - j,
            {
                let y = lambda(copy_node(&g[i][j]));
                row.push(y);
                j += 1;
            }
            out.push(row);
            i += 1;
        }
        assert(mapped(lambda, rows, rows_of(out)));
        CalcResult::Array(out)
    }

    /// REDUCE(initial_value, array, lambda): the last accumulator of applying
    /// the lambda to the accumulator (the initial value at first) and each
    /// element in turn, row by row (a single number, text or boolean taken as
    /// a one-by-one array); an error stays the error, anything else is
    /// `#VALUE!`.
    pub fn fn_reduce<F: Fn(ArrayNode, ArrayNode) -> ArrayNode>(
        &self,
        initial: &CalcResult,
        array: &CalcResult,
        lambda: F,
    ) -> (r: CalcResult)
        requires
            forall|a: ArrayNode, x: ArrayNode| call_requires(lambda, (a, x)),
        ensures
            takes_grid(*array) ==> exists|steps: Seq<ArrayNode>|
                folds(lambda, initial_node(*initial), flat(lambda_grid(*array)), steps) && r == node_result(
                    steps.last(),
                ),
            !takes_grid(*array) ==> r == not_a_grid(*array),
    {
        if !is_grid(array) {
            return answer_for_not_a_grid(array);
        }
        let g = grid_of(array);
        let items = flat_items(&g);
        let init = first_node(initial);
        let steps = scan_items(&lambda, &init, &items);
        let last = if steps.len() == 0 {
            copy_node(&init)
        } else {
            copy_node(&steps[steps.len() - 1])
        };
        let ghost all = seq![init] + steps@;
        assert(all.last() == last);
        result_of_node(last)
    }

    /// SCAN(initial_value, array, lambda): the array of the accumulators
    /// REDUCE goes through, each in the place of the element it took in (a
    /// single number, text or boolean taken as a one-by-one array); an error
    /// stays the error, anything else is `#VALUE!`.
    pub fn fn_scan<F: Fn(ArrayNode, ArrayNode) -> ArrayNode>(
        &self,
        initial: &CalcResult,
        array: &CalcResult,
        lambda: F,
    ) -> (r: CalcResult)
        requires
            forall|a: ArrayNode, x: ArrayNode| call_requires(lambda, (a, x)),
        ensures
            takes_grid(*array) ==> {
                &&& r is Array
                &&& shaped_like(rows_of(r->Array_0), lambda_grid(*array))
                &&& folds(
                    lambda,
                    initial_node(*initial),
                    flat(lambda_grid(*array)),
                    seq![initial_node(*initial)] + flat(rows_of(r->Array_0)),
                )
            },
            !takes_grid(*array) ==> r == not_a_grid(*array),
    {
        if !is_grid(array) {
            return answer_for_not_a_grid(array);
        }
        let g = grid_of(array);
        let items = flat_items(&g);
        let init = first_node(initial);
        let steps = scan_items(&lambda, &init, &items);
        let out = reshape(&steps, &g);
        CalcResult::Array(out)
    }

    /// BYCOL(array, lambda): one row holding the lambda applied to each
    /// column of the array (as many columns as the first row has; a row too
    /// short for a column adds nothing to it); an empty array gives an empty
    /// array, an error stays the error, anything else is `#VALUE!`.
    pub fn fn_bycol<F: Fn(Vec<ArrayNode>) -> ArrayNode>(&self, array: &CalcResult, lambda: F) -> (r: CalcResult)
        requires
            forall|v: Vec<ArrayNode>| call_requires(lambda, (v,)),
        ensures
            match *array {
                CalcResult::Array(a) => r is Array && if a.len() == 0 {
                    rows_of(r->Array_0) == Seq::<Seq<ArrayNode>>::empty()
                } else {
                    let out = rows_of(r->Array_0);
                    &&& out.len() == 1
                    &&& out[0].len() == a@[0].len()
                    &&& forall|c: int|
                        0 <= c < a@[0].len() ==> applied(lambda, column_items(rows_of(a), c), #[trigger] out[0][c])
                },
                CalcResult::Error(e) => r == CalcResult::Error(e),
                _ => r == CalcResult::Error(ErrorKind::Value),
            },
    {
        match array {
            CalcResult::Array(a) => {
                if a.len() == 0 {
                    let empty: Grid = Vec::new();
                    assert(rows_of(empty) =~= Seq::<Seq<ArrayNode>>::empty());
                    return CalcResult::Array(empty);
                }
                let ghost rows = rows_of(*a);
                let cols = a[0].len();
                let mut line: Vec<ArrayNode> = Vec::new();
                let mut c: usize = 0;
                while c < cols
                    invariant
                        c <= cols,
                        cols == a@[0].len(),
                        rows == rows_of(*a),
                        forall|v: Vec<ArrayNode>| call_requires(lambda, (v,)),
                        line.len() == c,
                        forall|k: int| 0 <= k < c ==> applied(lambda, column_items(rows, k), #[trigger] line@[k]),
                    decreases cols - c,
                {
                    let mut col: Vec<ArrayNode> = Vec::new();
                    let mut i: usize = 0;
                    assert(rows.take(0) =~= Seq::<Seq<ArrayNode>>::empty());
                    while i < a.len()
                        invariant
                            i <= a.len(),
                            rows == rows_of(*a),
                            col@ == column_items(rows.take(i as int), c as int),
                        decreases a.len() - i,
                    {
                        let ghost before = col@;
                        if c < a[i].len() {
                            col.push(copy_node(&a[i][c]));
                        }
                        assert(rows.take(i as int + 1).drop_last() =~= rows.take(i as int));
                        assert(col@ =~= column_items(rows.take(i as int + 1), c as int));
                        i += 1;
                    }
                    assert(rows.take(a.len() as int) =~= rows);
                    let ghost given = col;
                    let y = lambda(col);
                    assert(applied(lambda, column_items(rows, c as int), y));
                    line.push(y);
                    c += 1;
                }
                let mut out: Grid = Vec::new();
                out.push(line);
                assert(rows_of(out) =~= seq![line@]);
                CalcResult::Array(out)
            },
            CalcResult::Error(e) => CalcResult::Error(*e),
            _ => CalcResult::Error(ErrorKind::Value),
        }
    }

    /// BYROW(array, lambda): one column holding the lambda applied to each
    /// row of the array; an error stays the error, anything else is
    /// `#VALUE!`.
    pub fn fn_byrow<F: Fn(Vec<ArrayNode>) -> ArrayNode>(&self, array: &CalcResult, lambda: F) -> (r: CalcResult)
        requires
            forall|v: Vec<ArrayNode>| call_requires(lambda, (v,)),
        ensures
            match *array {
                CalcResult::Array(a) => r is Array && applied_rows(lambda, rows_of(a), rows_of(r->Array_0)),
                CalcResult::Error(e) => r == CalcResult::Error(e),
                _ => r == CalcResult::Error(ErrorKind::Value),
            },
    {
        match array {
            CalcResult::Array(a) => {
                let mut out: Grid = Vec::new();
                let mut i: usize = 0;
                while i < a.len()
                    invariant
                        i <= a.len(),
                        forall|v: Vec<ArrayNode>| call_requires(lambda, (v,)),
                        out.len() == i,
                        forall|m: int|
                            0 <= m < i ==> {
                                &&& #[trigger] out@[m]@.len() == 1
                                &&& applied(lambda, a@[m]@, out@[m]@[0])
                            },
                    decreases a.len() - i,
                {
                    let row = copy_row(&a[i]);
                    let ghost given = row;
                    let y = lambda(row);
                    assert(applied(lambda, a@[i as int]@, y));
                    let mut line: Vec<ArrayNode> = Vec::new();
                    line.push(y);
                    out.push(line);
                    i += 1;
                }
                assert forall|m: int| 0 <= m < a.len() implies #[trigger] rows_of(out)[m].len() == 1 && applied(
                    lambda,
                    rows_of(*a)[m],
                    rows_of(out)[m][0],
                ) by {
                    assert(rows_of(out)[m] == out@[m]@);
                    assert(rows_of(*a)[m] == a@[m]@);
                }
                assert(applied_rows(lambda, rows_of(*a), rows_of(out)));
                CalcResult::Array(out)
            },
            CalcResult::Error(e) => CalcResult::Error(*e),
            _ => CalcResult::Error(ErrorKind::Value),
        }
    }

    /// MAKEARRAY(rows, cols, lambda): the array of the given size (each
    /// truncated toward zero) whose element in row `i`, column `j` (counted
    /// from 1) is the lambda applied to `i` and `j`; a size of zero or above
    /// 1000 is `#VALUE!`.
    pub fn fn_makearray<F: Fn(usize, usize) -> ArrayNode>(&self, rows: Number, cols: Number, lambda: F) -> (r:
        CalcResult)
        requires
            forall|i: usize, j: usize| call_requires(lambda, (i, j)),
        ensures
            ({
                let nr = spec_to_usize(rows);
                let nc = spec_to_usize(cols);
                if nr == 0 || nc == 0 || nr > 1000 || nc > 1000 {
                    r == CalcResult::Error(ErrorKind::Value)
                } else {
                    &&& r is Array
                    &&& rows_of(r->Array_0).len() == nr
                    &&& forall|i: int| 0 <= i < nr ==> #[trigger] rows_of(r->Array_0)[i].len() == nc
                    &&& forall|i: int, j: int|
                        0 <= i < nr && 0 <= j < nc ==> call_ensures(
                            lambda,
                            ((i + 1) as usize, (j + 1) as usize),
                            #[trigger] rows_of(r->Array_0)[i][j],
                        )
                }
            }),
    {
        let nr = rows.to_usize();
        let nc = cols.to_usize();
        if nr == 0 || nc == 0 || nr > 1000 || nc > 1000 {
            return CalcResult::Error(ErrorKind::Value);
        }
        let mut out: Grid = Vec::new();
        let mut i: usize = 0;
        while i < nr
            invariant
                i <= nr <= 1000,
                nc <= 1000,
                forall|a: usize, b: usize| call_requires(lambda, (a, b)),
                out.len() == i,
                forall|m: int| 0 <= m < i ==> #[trigger] out@[m]@.len() == nc,
                forall|m: int, j: int|
                    0 <= m < i && 0 <= j < nc ==> call_ensures(
                        lambda,
                        ((m + 1) as usize, (j + 1) as usize),
                        #[trigger] out@[m]@[j],
                    ),
            decreases nr - i,
        {
            let mut line: Vec<ArrayNode> = Vec::new();
            let mut j: usize = 0;
            while j < nc
                invariant
                    i < nr <= 1000,
                    j <= nc <= 1000,
                    forall|a: usize, b: usize| call_requires(lambda, (a, b)),
                    line.len() == j,
                    forall|k: int|
                        0 <= k < j ==> call_ensures(lambda, ((i + 1) as usize, (k + 1) as usize), #[trigger] line@[k]),
                decreases nc - j,
            {
                let y = lambda(i + 1, j + 1);
                line.push(y);
                j += 1;
            }
            out.push(line);
            i += 1;
        }
        CalcResult::Array(out)
    }
}

/// Folding a lambda that gives one result for each argument has one
/// outcome: two runs from the same start over the same items agree.
pub proof fn lemma_fold_single<F: Fn(ArrayNode, ArrayNode) -> ArrayNode>(
    f: F,
    init: ArrayNode,
    items: Seq<ArrayNode>,
    s: Seq<ArrayNode>,
    t: Seq<ArrayNode>,
)
    requires
        single_valued(f),
        folds(f, init, items, s),
        folds(f, init, items, t),
    ensures
        s == t,
{
    assert forall|k: int| 0 <= k <= items.len() implies s[k] == t[k] by {
        lemma_fold_prefix(f, init, items, s, t, k);
    }
    assert(s =~= t);
}

proof fn lemma_fold_prefix<F: Fn(ArrayNode, ArrayNode) -> ArrayNode>(
    f: F,
    init: ArrayNode,
    items: Seq<ArrayNode>,
    s: Seq<ArrayNode>,
    t: Seq<ArrayNode>,
    k: int,
)
    requires
        single_valued(f),
        folds(f, init, items, s),
        folds(f, init, items, t),
        0 <= k <= items.len(),
    ensures
        s[k] == t[k],
    decreases k,
{
    if k > 0 {
        lemma_fold_prefix(f, init, items, s, t, k - 1);
        let j = k - 1;
        assert(call_ensures(f, (s[j], items[j]), s[j + 1]));
        assert(call_ensures(f, (t[j], items[j]), t[j + 1]));
    }
}

} // verus!
