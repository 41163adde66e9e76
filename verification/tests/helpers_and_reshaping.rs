use ironcalc_base::array_manipulation;
use ironcalc_base::commands::{get_system_info, open_xlsx_file, save_xlsx_file, SaveFailure};
use ironcalc_base::model::{let_pairs, Model};
use ironcalc_base::number::Number;
use ironcalc_base::values::{ArrayNode, CalcResult, ErrorKind};

fn num(x: i64) -> Number {
    Number::from_int(x)
}

fn node_text(node: &ArrayNode) -> String {
    match node {
        ArrayNode::Number(x) => x.to_text(),
        ArrayNode::Text(s) => s.clone(),
        ArrayNode::Boolean(true) => "TRUE".to_string(),
        ArrayNode::Boolean(false) => "FALSE".to_string(),
        ArrayNode::Error(e) => e.text(),
    }
}

fn rows_of(r: &CalcResult) -> Vec<Vec<String>> {
    match r {
        CalcResult::Array(g) => g.iter().map(|line| line.iter().map(node_text).collect()).collect(),
        CalcResult::Number(x) => vec![vec![x.to_text()]],
        CalcResult::Text(s) => vec![vec![s.clone()]],
        CalcResult::Error(e) => vec![vec![e.text()]],
        _ => vec![],
    }
}

fn numbers(rows: &[&[i64]]) -> CalcResult {
    CalcResult::Array(rows.iter().map(|r| r.iter().map(|x| ArrayNode::Number(num(*x))).collect()).collect())
}

fn strs(rows: &[&[&str]]) -> Vec<Vec<String>> {
    rows.iter().map(|r| r.iter().map(|s| s.to_string()).collect()).collect()
}

#[test]
fn groupby_and_pivotby_are_unavailable() {
    let m = Model::new();
    let three = vec![CalcResult::EmptyArg, CalcResult::EmptyArg, CalcResult::EmptyArg];
    assert_eq!(rows_of(&m.fn_groupby(&three)), strs(&[&["#CALC!"]]));
    assert_eq!(rows_of(&m.fn_groupby(&vec![])), strs(&[&["#ERROR!"]]));
    assert_eq!(rows_of(&m.fn_pivotby(&three)), strs(&[&["#ERROR!"]]));
}

#[test]
fn tocol_and_torow() {
    let m = Model::new();
    let a = numbers(&[&[1, 2], &[3, 4]]);
    assert_eq!(rows_of(&m.fn_tocol(&a)), strs(&[&["1"], &["2"], &["3"], &["4"]]));
    assert_eq!(rows_of(&m.fn_torow(&a)), strs(&[&["1", "2", "3", "4"]]));
    assert_eq!(rows_of(&m.fn_tocol(&CalcResult::Boolean(true))), strs(&[&["#VALUE!"]]));
    assert_eq!(rows_of(&m.fn_torow(&CalcResult::Text("x".to_string()))), strs(&[&["x"]]));
}

#[test]
fn zero_padded_wrapping() {
    let a = numbers(&[&[1, 2, 3, 4, 5]]);
    let r = array_manipulation::fn_wraprows(&a, num(2));
    assert_eq!(rows_of(&r), strs(&[&["1", "2"], &["3", "4"], &["5", "0"]]));
    let r = array_manipulation::fn_wrapcols(&a, num(2));
    assert_eq!(rows_of(&r), strs(&[&["1", "3", "5"], &["2", "4", "0"]]));
    let r = array_manipulation::fn_wraprows(&a, num(0));
    assert_eq!(rows_of(&r), strs(&[&["#VALUE!"]]));
    let r = array_manipulation::fn_wrapcols(&CalcResult::Text("x".to_string()), num(1));
    assert_eq!(rows_of(&r), strs(&[&["#VALUE!"]]));
}

#[test]
fn zero_padded_expand_cuts_and_grows() {
    let a = numbers(&[&[1, 2], &[3, 4]]);
    let r = array_manipulation::fn_expand(&a, num(1), num(3));
    assert_eq!(rows_of(&r), strs(&[&["1", "2", "0"]]));
    let r = array_manipulation::fn_expand(&CalcResult::Text("t".to_string()), num(2), num(1));
    assert_eq!(rows_of(&r), strs(&[&["0"], &["0"]]));
}

#[test]
fn simple_textsplit_agrees_with_str_split() {
    let cases = [("a,b,,c", ","), ("abc", ""), ("", ""), ("x--y--", "--"), ("none", ";")];
    for (text, delim) in cases.iter() {
        let r = array_manipulation::fn_textsplit(text, delim, None);
        let expected: Vec<String> = text.split(*delim).map(|s| s.to_string()).collect();
        assert_eq!(rows_of(&r), vec![expected]);
    }
    let r = array_manipulation::fn_textsplit("a,b;c", ",", Some(";"));
    assert_eq!(rows_of(&r), strs(&[&["a", "b"], &["c"]]));
}

/// LAMBDA(x, x*2) on a number; anything else as it is.
fn double(x: ArrayNode) -> ArrayNode {
    match x {
        ArrayNode::Number(n) => ArrayNode::Number(Number::from_scaled(n.scaled * 2)),
        other => other,
    }
}

/// A number's whole value (the tests below use whole numbers only).
fn whole(x: &ArrayNode) -> i64 {
    match x {
        ArrayNode::Number(n) => n.floor_i64(),
        _ => panic!("not a number"),
    }
}

/// LAMBDA(a, v, a+v)
fn add(a: ArrayNode, v: ArrayNode) -> ArrayNode {
    ArrayNode::Number(num(whole(&a) + whole(&v)))
}

/// LAMBDA(a, v, a*v)
fn times(a: ArrayNode, v: ArrayNode) -> ArrayNode {
    ArrayNode::Number(num(whole(&a) * whole(&v)))
}

/// LAMBDA(r, SUM(r))
fn sum(v: Vec<ArrayNode>) -> ArrayNode {
    ArrayNode::Number(num(v.iter().map(whole).sum()))
}

#[test]
fn map_reduce_scan() {
    let m = Model::new();
    let a = numbers(&[&[1, 2], &[3, 4]]);
    // MAP({1,2;3,4}, LAMBDA(x, x*2))
    assert_eq!(rows_of(&m.fn_map(&a, double)), strs(&[&["2", "4"], &["6", "8"]]));
    assert_eq!(rows_of(&m.fn_map(&numbers(&[&[1, 2, 3]]), double)), strs(&[&["2", "4", "6"]]));
    assert_eq!(rows_of(&m.fn_map(&CalcResult::Number(num(7)), double)), strs(&[&["14"]]));
    assert_eq!(rows_of(&m.fn_map(&CalcResult::Error(ErrorKind::Div), double)), strs(&[&["#DIV/0!"]]));
    assert_eq!(rows_of(&m.fn_map(&CalcResult::EmptyArg, double)), strs(&[&["#VALUE!"]]));
    // REDUCE(10, {1,2;3,4}, LAMBDA(a, v, a+v))
    assert_eq!(rows_of(&m.fn_reduce(&CalcResult::Number(num(10)), &a, add)), strs(&[&["20"]]));
    // REDUCE(1, {1,2;3,4}, LAMBDA(a, v, a*v))
    assert_eq!(rows_of(&m.fn_reduce(&CalcResult::Number(num(1)), &a, times)), strs(&[&["24"]]));
    // An empty initial value starts from zero.
    assert_eq!(rows_of(&m.fn_reduce(&CalcResult::EmptyArg, &a, add)), strs(&[&["10"]]));
    assert_eq!(rows_of(&m.fn_reduce(&CalcResult::Number(num(1)), &CalcResult::EmptyArg, add)), strs(&[&["#VALUE!"]]));
    // SCAN(1, {2,3,4}, LAMBDA(a, v, a*v))
    let r = m.fn_scan(&CalcResult::Number(num(1)), &numbers(&[&[2, 3, 4]]), times);
    assert_eq!(rows_of(&r), strs(&[&["2", "6", "24"]]));
    let r = m.fn_scan(&CalcResult::Number(num(100)), &a, add);
    assert_eq!(rows_of(&r), strs(&[&["101", "103"], &["106", "110"]]));
    let ragged = CalcResult::Array(vec![vec![ArrayNode::Number(num(1)), ArrayNode::Number(num(2))], vec![ArrayNode::Number(num(3))]]);
    assert_eq!(rows_of(&m.fn_scan(&CalcResult::EmptyArg, &ragged, add)), strs(&[&["1", "3"], &["6"]]));
    assert_eq!(rows_of(&m.fn_scan(&CalcResult::Number(num(1)), &CalcResult::Number(num(2)), add)), strs(&[&["3"]]));
}

#[test]
fn bycol_byrow_makearray_munit() {
    let m = Model::new();
    let a = numbers(&[&[1, 2], &[3, 4]]);
    // BYCOL(a, LAMBDA(c, SUM(c))), BYROW(a, LAMBDA(r, SUM(r)))
    assert_eq!(rows_of(&m.fn_bycol(&a, sum)), strs(&[&["4", "6"]]));
    assert_eq!(rows_of(&m.fn_byrow(&a, sum)), strs(&[&["3"], &["7"]]));
    assert_eq!(rows_of(&m.fn_bycol(&CalcResult::Number(num(1)), sum)), strs(&[&["#VALUE!"]]));
    assert_eq!(rows_of(&m.fn_bycol(&CalcResult::Array(vec![]), sum)), Vec::<Vec<String>>::new());
    assert_eq!(rows_of(&m.fn_byrow(&CalcResult::Error(ErrorKind::Na), sum)), strs(&[&["#N/A"]]));
    // MAKEARRAY(2, 2, LAMBDA(i, j, i+j)) and MAKEARRAY(2, 3, LAMBDA(i, j, i*j))
    let plus = |i: usize, j: usize| ArrayNode::Number(Number::from_count(i + j));
    let product = |i: usize, j: usize| ArrayNode::Number(Number::from_count(i * j));
    assert_eq!(rows_of(&m.fn_makearray(num(2), num(2), plus)), strs(&[&["2", "3"], &["3", "4"]]));
    assert_eq!(rows_of(&m.fn_makearray(num(2), num(3), product)), strs(&[&["1", "2", "3"], &["2", "4", "6"]]));
    assert_eq!(rows_of(&m.fn_makearray(num(0), num(3), plus)), strs(&[&["#VALUE!"]]));
    assert_eq!(rows_of(&m.fn_makearray(num(1001), num(1), plus)), strs(&[&["#VALUE!"]]));
    assert_eq!(rows_of(&m.fn_munit(num(2))), strs(&[&["1", "0"], &["0", "1"]]));
    assert_eq!(rows_of(&m.fn_munit(num(0))), strs(&[&["#VALUE!"]]));
}

#[test]
fn let_step_binds_shadows_and_restores() {
    let mut m = Model::new();
    assert_eq!(let_pairs(5), Ok(2));
    assert_eq!(let_pairs(4), Err(ErrorKind::Error));
    assert_eq!(let_pairs(1), Err(ErrorKind::Error));
    let saved = m.lambda_scope.len();
    assert!(m.let_step(saved, Some("x".to_string()), CalcResult::Number(num(5))).is_none());
    assert!(m.let_step(saved, Some("x".to_string()), CalcResult::Number(num(10))).is_none());
    let i = m.lookup("x").unwrap();
    assert_eq!(rows_of(&m.lambda_scope[i].1), strs(&[&["10"]]));
    assert!(m.lookup("y").is_none());
    let end = m.let_end(saved, CalcResult::Number(num(10)));
    assert_eq!(rows_of(&end), strs(&[&["10"]]));
    assert!(m.lookup("x").is_none());
    let stopped = m.let_step(saved, Some("x".to_string()), CalcResult::Error(ErrorKind::Div));
    assert_eq!(rows_of(&stopped.unwrap()), strs(&[&["#DIV/0!"]]));
    assert_eq!(m.lambda_scope.len(), saved);
    let not_a_name = m.let_step(saved, None, CalcResult::Number(num(1)));
    assert_eq!(rows_of(&not_a_name.unwrap()), strs(&[&["#VALUE!"]]));
}

#[test]
fn file_answers() {
    let r = open_xlsx_file("/tmp/book.xlsx".to_string(), true, Some("xlsx".to_string()));
    assert!(r.success);
    assert_eq!(r.path.as_deref(), Some("/tmp/book.xlsx"));
    let r = open_xlsx_file("/tmp/missing.xlsx".to_string(), false, Some("xlsx".to_string()));
    assert_eq!(r.error.as_deref(), Some("File not found: /tmp/missing.xlsx"));
    let r = open_xlsx_file("/tmp/notes.txt".to_string(), true, Some("txt".to_string()));
    assert_eq!(r.error.as_deref(), Some("Invalid file type. Expected .xlsx or .icalc"));
    let r = open_xlsx_file("/tmp/book.icalc".to_string(), true, Some("icalc".to_string()));
    assert!(r.success);
    let r = save_xlsx_file("/tmp/out.xlsx".to_string(), Ok(()));
    assert!(r.success && r.error.is_none());
    let r = save_xlsx_file("/tmp/out.xlsx".to_string(), Err(SaveFailure::Create("denied".to_string())));
    assert_eq!(r.error.as_deref(), Some("Failed to create file: denied"));
    let r = save_xlsx_file("/tmp/out.xlsx".to_string(), Err(SaveFailure::Write("full".to_string())));
    assert_eq!(r.error.as_deref(), Some("Failed to write file: full"));
    let info = get_system_info("linux".to_string(), "x86_64".to_string());
    assert_eq!((info.os.as_str(), info.arch.as_str(), info.memory_mb), ("linux", "x86_64", 0));
}

type Scope = Vec<(String, CalcResult)>;

/// What a name stands for in a scope: its latest binding.
fn bound<'a>(scope: &'a Scope, name: &str) -> &'a CalcResult {
    &scope.iter().rev().find(|(n, _)| n == name).expect("unbound name").1
}

/// The whole number a name stands for (the tests below bind whole numbers).
fn int_in(scope: &Scope, name: &str) -> i64 {
    match bound(scope, name) {
        CalcResult::Number(x) => x.floor_i64(),
        other => panic!("{} is {:?}", name, other),
    }
}

fn number(x: i64) -> CalcResult {
    CalcResult::Number(num(x))
}

fn names(list: &[&str]) -> Vec<Option<String>> {
    list.iter().map(|n| Some(n.to_string())).collect()
}

#[test]
fn test_let_single_variable() {
    // =LET(x, 10, x*2)
    let mut m = Model::new();
    let r = m.fn_let(&names(&["x"]), |_: &Scope, _: usize| number(10), |s: &Scope| number(int_in(s, "x") * 2));
    assert_eq!(rows_of(&r), strs(&[&["20"]]));
    assert_eq!(m.lambda_scope.len(), 0);
}

#[test]
fn test_let_two_variables() {
    // =LET(a, 5, b, 3, a+b)
    let mut m = Model::new();
    let values = |_: &Scope, i: usize| if i == 0 { number(5) } else { number(3) };
    let r = m.fn_let(&names(&["a", "b"]), values, |s: &Scope| number(int_in(s, "a") + int_in(s, "b")));
    assert_eq!(rows_of(&r), strs(&[&["8"]]));
}

#[test]
fn test_let_three_variables() {
    // =LET(x, 2, y, 3, z, 4, x*y*z)
    let mut m = Model::new();
    let values = |_: &Scope, i: usize| number(i as i64 + 2);
    let body = |s: &Scope| number(int_in(s, "x") * int_in(s, "y") * int_in(s, "z"));
    let r = m.fn_let(&names(&["x", "y", "z"]), values, body);
    assert_eq!(rows_of(&r), strs(&[&["24"]]));
}

#[test]
fn test_let_with_cell_reference() {
    // B1 holds 100; =LET(val, B1, val*2)
    let mut m = Model::new();
    let b1 = 100;
    let r = m.fn_let(&names(&["val"]), |_: &Scope, _: usize| number(b1), |s: &Scope| number(int_in(s, "val") * 2));
    assert_eq!(rows_of(&r), strs(&[&["200"]]));
}

#[test]
fn test_let_with_function() {
    // B1:B3 hold 10, 20, 30; =LET(total, SUM(B1:B3), total/3)
    let mut m = Model::new();
    let cells = [10i64, 20, 30];
    let sum_b = |_: &Scope, _: usize| number(cells.iter().sum());
    let r = m.fn_let(&names(&["total"]), sum_b, |s: &Scope| number(int_in(s, "total") / 3));
    assert_eq!(rows_of(&r), strs(&[&["20"]]));
}

#[test]
fn test_let_variable_reuse() {
    // =LET(x, 5, x + x * x)
    let mut m = Model::new();
    let body = |s: &Scope| {
        let x = int_in(s, "x");
        number(x + x * x)
    };
    let r = m.fn_let(&names(&["x"]), |_: &Scope, _: usize| number(5), body);
    assert_eq!(rows_of(&r), strs(&[&["30"]]));
}

#[test]
fn test_let_nested() {
    // =LET(x, 10, y, LET(a, 2, a*5), x+y)
    let mut m = Model::new();
    let inner = |s: &Scope| {
        let mut nested = Model::new();
        nested.lambda_scope = s
            .iter()
            .map(|(n, v)| (n.clone(), match v {
                CalcResult::Number(x) => CalcResult::Number(*x),
                _ => CalcResult::EmptyArg,
            }))
            .collect();
        let r = nested.fn_let(&names(&["a"]), |_: &Scope, _: usize| number(2), |t: &Scope| number(int_in(t, "a") * 5));
        assert_eq!(nested.lambda_scope.len(), s.len());
        r
    };
    let values = |s: &Scope, i: usize| if i == 0 { number(10) } else { inner(s) };
    let r = m.fn_let(&names(&["x", "y"]), values, |s: &Scope| number(int_in(s, "x") + int_in(s, "y")));
    assert_eq!(rows_of(&r), strs(&[&["20"]]));
}

#[test]
fn test_let_variable_depends_on_previous() {
    // =LET(x, 5, y, x*2, x+y)
    let mut m = Model::new();
    let values = |s: &Scope, i: usize| if i == 0 { number(5) } else { number(int_in(s, "x") * 2) };
    let r = m.fn_let(&names(&["x", "y"]), values, |s: &Scope| number(int_in(s, "x") + int_in(s, "y")));
    assert_eq!(rows_of(&r), strs(&[&["15"]]));
}

#[test]
fn test_let_string_value() {
    // =LET(name, "Hello", name & " World")
    let mut m = Model::new();
    let values = |_: &Scope, _: usize| CalcResult::Text("Hello".to_string());
    let body = |s: &Scope| {
        let greeting = match bound(s, "name") {
            CalcResult::Text(t) => CalcResult::Text(t.clone()),
            _ => CalcResult::Error(ErrorKind::Value),
        };
        Model::new().fn_concat(&vec![greeting, CalcResult::Text(" World".to_string())])
    };
    let r = m.fn_let(&names(&["name"]), values, body);
    assert_eq!(rows_of(&r), strs(&[&["Hello World"]]));
}

#[test]
fn test_let_error_propagation() {
    // =LET(x, 1/0, x*2)
    let mut m = Model::new();
    let r = m.fn_let(
        &names(&["x"]),
        |_: &Scope, _: usize| CalcResult::Error(ErrorKind::Div),
        |s: &Scope| number(int_in(s, "x") * 2),
    );
    let text = rows_of(&r)[0][0].clone();
    assert!(text.contains("#DIV/0"), "LET should propagate error, got: {}", text);
    assert_eq!(m.lambda_scope.len(), 0);
}

#[test]
fn test_let_shadowing() {
    // =LET(x, 5, x, 10, x)
    let mut m = Model::new();
    let values = |_: &Scope, i: usize| if i == 0 { number(5) } else { number(10) };
    let r = m.fn_let(&names(&["x", "x"]), values, |s: &Scope| number(int_in(s, "x")));
    assert_eq!(rows_of(&r), strs(&[&["10"]]));
}

#[test]
fn test_let_with_if() {
    // =LET(val, 15, IF(val>10, "High", "Low"))
    let mut m = Model::new();
    let body = |s: &Scope| CalcResult::Text(if int_in(s, "val") > 10 { "High" } else { "Low" }.to_string());
    let r = m.fn_let(&names(&["val"]), |_: &Scope, _: usize| number(15), body);
    assert_eq!(rows_of(&r), strs(&[&["High"]]));
}

#[test]
fn let_restores_the_scope_on_every_path() {
    let mut m = Model::new();
    m.lambda_scope.push(("x".to_string(), number(100)));
    // =LET(x, 5, y, x*2, x+y) inside a scope where x is already 100
    let values = |s: &Scope, i: usize| if i == 0 { number(5) } else { number(int_in(s, "x") * 2) };
    let body = |s: &Scope| number(int_in(s, "x") + int_in(s, "y"));
    let r = m.fn_let(&names(&["x", "y"]), values, body);
    assert_eq!(rows_of(&r), strs(&[&["15"]]));
    assert_eq!(m.lambda_scope.len(), 1);
    assert_eq!(int_in(&m.lambda_scope, "x"), 100);
    assert_eq!(m.lookup("y"), None);
    // An argument that is no name, an error value, and no pair at all.
    let r = m.fn_let(&vec![Some("a".to_string()), None], values, body);
    assert_eq!(rows_of(&r), strs(&[&["#VALUE!"]]));
    let r = m.fn_let(&names(&["z"]), |_: &Scope, _: usize| CalcResult::Error(ErrorKind::Div), body);
    assert_eq!(rows_of(&r), strs(&[&["#DIV/0!"]]));
    let r = m.fn_let(&vec![], values, body);
    assert_eq!(rows_of(&r), strs(&[&["#ERROR!"]]));
    assert_eq!(m.lambda_scope.len(), 1);
}
