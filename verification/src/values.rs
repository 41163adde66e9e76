use vstd::prelude::*;

use crate::model::Model;
use crate::number::Number;

verus! {

/// The error values a formula can produce.
#[derive(Clone, Copy, PartialEq, Eq, Structural, Debug)]
pub enum ErrorKind {
    Ref,
    Name,
    Value,
    Div,
    Na,
    Num,
    Error,
    Nimpl,
    Spill,
    Calc,
    Circ,
    Null,
}

/// How an error value reads as text.
pub open spec fn error_text(e: ErrorKind) -> Seq<char> {
    match e {
        ErrorKind::Ref => "#REF!"@,
        ErrorKind::Name => "#NAME?"@,
        ErrorKind::Value => "#VALUE!"@,
        ErrorKind::Div => "#DIV/0!"@,
        ErrorKind::Na => "#N/A"@,
        ErrorKind::Num => "#NUM!"@,
        ErrorKind::Error => "#ERROR!"@,
        ErrorKind::Nimpl => "#N/IMPL!"@,
        ErrorKind::Spill => "#SPILL!"@,
        ErrorKind::Calc => "#CALC!"@,
        ErrorKind::Circ => "#CIRC!"@,
        ErrorKind::Null => "#NULL!"@,
    }
}

impl ErrorKind {
    /// The error as text, as a cell shows it.
    pub fn text(&self) -> (r: String)
        ensures
            r@ == error_text(*self),
    {
        match self {
            ErrorKind::Ref => "#REF!".to_owned(),
            ErrorKind::Name => "#NAME?".to_owned(),
            ErrorKind::Value => "#VALUE!".to_owned(),
            ErrorKind::Div => "#DIV/0!".to_owned(),
            ErrorKind::Na => "#N/A".to_owned(),
            ErrorKind::Num => "#NUM!".to_owned(),
            ErrorKind::Error => "#ERROR!".to_owned(),
            ErrorKind::Nimpl => "#N/IMPL!".to_owned(),
            ErrorKind::Spill => "#SPILL!".to_owned(),
            ErrorKind::Calc => "#CALC!".to_owned(),
            ErrorKind::Circ => "#CIRC!".to_owned(),
            ErrorKind::Null => "#NULL!".to_owned(),
        }
    }
}

/// One element of an array value.
#[derive(Debug)]
pub enum ArrayNode {
    Number(Number),
    Text(String),
    Boolean(bool),
    Error(ErrorKind),
}

/// What an array element stands for.
pub ghost enum NodeV {
    Number(Number),
    Text(Seq<char>),
    Boolean(bool),
    Error(ErrorKind),
}

impl View for ArrayNode {
    type V = NodeV;

    open spec fn view(&self) -> NodeV {
        match self {
            ArrayNode::Number(n) => NodeV::Number(*n),
            ArrayNode::Text(s) => NodeV::Text(s@),
            ArrayNode::Boolean(b) => NodeV::Boolean(*b),
            ArrayNode::Error(e) => NodeV::Error(*e),
        }
    }
}

impl Clone for ArrayNode {
    fn clone(&self) -> (r: Self)
        ensures
            r == *self,
    {
        match self {
            ArrayNode::Number(n) => ArrayNode::Number(*n),
            ArrayNode::Text(s) => ArrayNode::Text(s.clone()),
            ArrayNode::Boolean(b) => ArrayNode::Boolean(*b),
            ArrayNode::Error(e) => ArrayNode::Error(*e),
        }
    }
}

/// A two-dimensional array of values, row by row.
pub type Grid = Vec<Vec<ArrayNode>>;

pub open spec fn nodes_view(v: Seq<ArrayNode>) -> Seq<NodeV> {
    v.map_values(|n: ArrayNode| n@)
}

pub open spec fn row_view(r: Vec<ArrayNode>) -> Seq<NodeV> {
    nodes_view(r@)
}

pub open spec fn grid_view(g: Grid) -> Seq<Seq<NodeV>> {
    g@.map_values(|r: Vec<ArrayNode>| row_view(r))
}

/// A copy of a row.
pub fn clone_row(r: &Vec<ArrayNode>) -> (c: Vec<ArrayNode>)
    ensures
        c@ == r@,
{
    let mut c: Vec<ArrayNode> = Vec::new();
    let mut i: usize = 0;
    while i < r.len()
        invariant
            i <= r.len(),
            c@ == r@.take(i as int),
        decreases r.len() - i,
    {
        c.push(r[i].clone());
        assert(r@.take(i as int + 1) == r@.take(i as int).push(r@[i as int]));
        i += 1;
    }
    assert(r@.take(r.len() as int) == r@);
    c
}

/// A copy of a grid.
pub fn clone_grid(g: &Grid) -> (c: Grid)
    ensures
        grid_view(c) == grid_view(*g),
{
    let mut c: Grid = Vec::new();
    let mut i: usize = 0;
    while i < g.len()
        invariant
            i <= g.len(),
            c.len() == i,
            forall|k: int| 0 <= k < i ==> #[trigger] c@[k]@ == g@[k]@,
        decreases g.len() - i,
    {
        c.push(clone_row(&g[i]));
        i += 1;
    }
    assert(grid_view(c) =~= grid_view(*g));
    c
}

/// What a single cell evaluates to, as read through a range.
#[derive(Debug)]
pub enum Cell {
    Number(Number),
    Text(String),
    Boolean(bool),
    Error(ErrorKind),
    EmptyCell,
    EmptyArg,
    Range,
    Array,
    Lambda,
}

/// The result of evaluating a formula or a function argument.
///
/// A range holds what each of its cells evaluates to, row by row.
#[derive(Debug)]
pub enum CalcResult {
    Number(Number),
    Text(String),
    Boolean(bool),
    Error(ErrorKind),
    EmptyCell,
    EmptyArg,
    Range(Vec<Vec<Cell>>),
    Array(Grid),
    Lambda,
}

/// The array element that a cell contributes (anything that is not a
/// number, text, boolean or error becomes the empty text).
pub open spec fn cell_node(c: Cell) -> NodeV {
    match c {
        Cell::Number(n) => NodeV::Number(n),
        Cell::Text(s) => NodeV::Text(s@),
        Cell::Boolean(b) => NodeV::Boolean(b),
        Cell::Error(e) => NodeV::Error(e),
        _ => NodeV::Text(Seq::empty()),
    }
}

/// The array element that a result contributes.
pub open spec fn result_node(c: CalcResult) -> NodeV {
    match c {
        CalcResult::Number(n) => NodeV::Number(n),
        CalcResult::Text(s) => NodeV::Text(s@),
        CalcResult::Boolean(b) => NodeV::Boolean(b),
        CalcResult::Error(e) => NodeV::Error(e),
        _ => NodeV::Text(Seq::empty()),
    }
}

pub open spec fn range_view(cells: Vec<Vec<Cell>>) -> Seq<Seq<NodeV>> {
    cells@.map_values(|r: Vec<Cell>| r@.map_values(|c: Cell| cell_node(c)))
}

/// The array element for a cell.
pub fn cell_to_node(c: &Cell) -> (n: ArrayNode)
    ensures
        n@ == cell_node(*c),
{
    match c {
        Cell::Number(x) => ArrayNode::Number(*x),
        Cell::Text(s) => ArrayNode::Text(s.clone()),
        Cell::Boolean(b) => ArrayNode::Boolean(*b),
        Cell::Error(e) => ArrayNode::Error(*e),
        _ => ArrayNode::Text(String::new()),
    }
}

impl Model {
    /// The array element for a result (`calc_result_to_array_node`).
    pub fn calc_result_to_array_node(c: &CalcResult) -> (n: ArrayNode)
        ensures
            n@ == result_node(*c),
    {
        match c {
            CalcResult::Number(x) => ArrayNode::Number(*x),
            CalcResult::Text(s) => ArrayNode::Text(s.clone()),
            CalcResult::Boolean(b) => ArrayNode::Boolean(*b),
            CalcResult::Error(e) => ArrayNode::Error(*e),
            _ => ArrayNode::Text(String::new()),
        }
    }
}

fn range_to_grid(cells: &Vec<Vec<Cell>>) -> (g: Grid)
    ensures
        grid_view(g) == range_view(*cells),
{
    let mut g: Grid = Vec::new();
    let mut i: usize = 0;
    while i < cells.len()
        invariant
            i <= cells.len(),
            g.len() == i,
            forall|k: int|
                0 <= k < i ==> row_view(#[trigger] g@[k]) == cells@[k]@.map_values(
                    |c: Cell| cell_node(c),
                ),
        decreases cells.len() - i,
    {
        let row = &cells[i];
        let mut out: Vec<ArrayNode> = Vec::new();
        let mut j: usize = 0;
        while j < row.len()
            invariant
                j <= row.len(),
                out.len() == j,
                forall|k: int| 0 <= k < j ==> #[trigger] out@[k]@ == cell_node(row@[k]),
            decreases row.len() - j,
        {
            out.push(cell_to_node(&row[j]));
            j += 1;
        }
        assert(row_view(out) =~= row@.map_values(|c: Cell| cell_node(c)));
        g.push(out);
        i += 1;
    }
    assert(grid_view(g) =~= range_view(*cells));
    g
}

/// What `calc_result_to_2d_array` gives for a result: the rows of an array
/// or range, a one-by-one array for a single value, the error of an error,
/// and `#VALUE!` for anything else.
pub open spec fn spec_to_grid(c: CalcResult) -> Result<Seq<Seq<NodeV>>, ErrorKind> {
    match c {
        CalcResult::Array(a) => Ok(grid_view(a)),
        CalcResult::Range(cells) => Ok(range_view(cells)),
        CalcResult::Number(n) => Ok(seq![seq![NodeV::Number(n)]]),
        CalcResult::Text(s) => Ok(seq![seq![NodeV::Text(s@)]]),
        CalcResult::Boolean(b) => Ok(seq![seq![NodeV::Boolean(b)]]),
        CalcResult::Error(e) => Err(e),
        _ => Err(ErrorKind::Value),
    }
}

pub open spec fn grid_result_view(r: Result<Grid, ErrorKind>) -> Result<Seq<Seq<NodeV>>, ErrorKind> {
    match r {
        Ok(g) => Ok(grid_view(g)),
        Err(e) => Err(e),
    }
}

/// The one-by-one array holding `n`.
pub fn single(n: ArrayNode) -> (g: Grid)
    ensures
        grid_view(g) == seq![seq![n@]],
{
    let mut row: Vec<ArrayNode> = Vec::new();
    row.push(n);
    let mut g: Grid = Vec::new();
    g.push(row);
    assert(row_view(row) =~= seq![n@]);
    assert(grid_view(g) =~= seq![seq![n@]]);
    g
}

impl Model {
    /// The rows of a result seen as a two-dimensional array.
    pub fn calc_result_to_2d_array(c: &CalcResult) -> (r: Result<Grid, ErrorKind>)
        ensures
            grid_result_view(r) == spec_to_grid(*c),
    {
        match c {
            CalcResult::Array(a) => {
                let g = clone_grid(a);
                Ok(g)
            },
            CalcResult::Range(cells) => Ok(range_to_grid(cells)),
            CalcResult::Number(n) => Ok(single(ArrayNode::Number(*n))),
            CalcResult::Text(s) => Ok(single(ArrayNode::Text(s.clone()))),
            CalcResult::Boolean(b) => Ok(single(ArrayNode::Boolean(*b))),
            CalcResult::Error(e) => Err(*e),
            _ => Err(ErrorKind::Value),
        }
    }
}

/// The rows of a grid joined into one sequence.
pub open spec fn flatten(g: Seq<Seq<NodeV>>) -> Seq<NodeV>
    decreases g.len(),
{
    if g.len() == 0 {
        seq![]
    } else {
        flatten(g.drop_last()) + g.last()
    }
}

/// What `calc_result_to_flat_array` gives: the elements of an array or a
/// range row by row, and `#VALUE!` for anything else.
pub open spec fn spec_to_flat(c: CalcResult) -> Result<Seq<NodeV>, ErrorKind> {
    match c {
        CalcResult::Array(a) => Ok(flatten(grid_view(a))),
        CalcResult::Range(cells) => Ok(flatten(range_view(cells))),
        _ => Err(ErrorKind::Value),
    }
}

/// The elements of a grid, row by row.
pub fn flatten_grid(g: &Grid) -> (r: Vec<ArrayNode>)
    ensures
        nodes_view(r@) == flatten(grid_view(*g)),
{
    let mut r: Vec<ArrayNode> = Vec::new();
    let mut i: usize = 0;
    while i < g.len()
        invariant
            i <= g.len(),
            nodes_view(r@) == flatten(grid_view(*g).take(i as int)),
        decreases g.len() - i,
    {
        let ghost before = nodes_view(r@);
        let ghost start = r.len();
        let mut j: usize = 0;
        while j < g[i].len()
            invariant
                i < g.len(),
                j <= g[i as int].len(),
                r.len() == start + j,
                before.len() == start,
                forall|k: int| 0 <= k < start ==> #[trigger] r@[k]@ == before[k],
                forall|k: int| 0 <= k < j ==> #[trigger] r@[start + k]@ == g[i as int]@[k]@,
            decreases g[i as int].len() - j,
        {
            r.push(g[i][j].clone());
            j += 1;
        }
        assert forall|k: int| 0 <= k < r.len() implies #[trigger] nodes_view(r@)[k] == (before + row_view(g[i as int]))[k] by {
            if k < start {
                assert(r@[k]@ == before[k]);
            } else {
                assert(r@[start + (k - start)]@ == g[i as int]@[k - start]@);
            }
        }
        assert(nodes_view(r@) =~= before + row_view(g[i as int]));
        assert(grid_view(*g).take(i as int + 1).drop_last() =~= grid_view(*g).take(i as int));
        i += 1;
    }
    assert(grid_view(*g).take(g.len() as int) =~= grid_view(*g));
    r
}

pub open spec fn flat_result_view(r: Result<Vec<ArrayNode>, ErrorKind>) -> Result<Seq<NodeV>, ErrorKind> {
    match r {
        Ok(v) => Ok(nodes_view(v@)),
        Err(e) => Err(e),
    }
}

impl Model {
    /// The elements of an array or range, row by row.
    pub fn calc_result_to_flat_array(c: &CalcResult) -> (r: Result<Vec<ArrayNode>, ErrorKind>)
        ensures
            flat_result_view(r) == spec_to_flat(*c),
    {
        match c {
            CalcResult::Array(a) => Ok(flatten_grid(a)),
            CalcResult::Range(cells) => {
                let g = range_to_grid(cells);
                Ok(flatten_grid(&g))
            },
            _ => Err(ErrorKind::Value),
        }
    }
}

} // verus!
