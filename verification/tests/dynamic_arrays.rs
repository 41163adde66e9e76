use ironcalc_base::model::Model;
use ironcalc_base::number::Number;
use ironcalc_base::values::{ArrayNode, CalcResult, Cell, ErrorKind};

fn num(x: i64) -> Number {
    Number::from_int(x)
}

fn n(x: i64) -> Cell {
    Cell::Number(num(x))
}

fn t(s: &str) -> Cell {
    Cell::Text(s.to_string())
}

fn b(v: bool) -> Cell {
    Cell::Boolean(v)
}

fn range(rows: Vec<Vec<Cell>>) -> CalcResult {
    CalcResult::Range(rows)
}

fn column(cells: Vec<Cell>) -> CalcResult {
    CalcResult::Range(cells.into_iter().map(|c| vec![c]).collect())
}

fn bools_column(flags: &[bool]) -> CalcResult {
    CalcResult::Array(flags.iter().map(|f| vec![ArrayNode::Boolean(*f)]).collect())
}

fn node_text(node: &ArrayNode) -> String {
    match node {
        ArrayNode::Number(x) => x.to_text(),
        ArrayNode::Text(s) => s.clone(),
        ArrayNode::Boolean(true) => "TRUE".to_string(),
        ArrayNode::Boolean(false) => "FALSE".to_string(),
        ArrayNode::Error(e) => e.text(),
    }
}

/// What a cell `row` rows below and `col` columns right of the formula shows.
fn shown(r: &CalcResult, row: usize, col: usize) -> String {
    match r {
        CalcResult::Array(g) => match g.get(row).and_then(|line| line.get(col)) {
            Some(node) => node_text(node),
            None => String::new(),
        },
        CalcResult::Number(x) if row == 0 && col == 0 => x.to_text(),
        CalcResult::Text(s) if row == 0 && col == 0 => s.clone(),
        CalcResult::Boolean(v) if row == 0 && col == 0 => {
            if *v {
                "TRUE".to_string()
            } else {
                "FALSE".to_string()
            }
        }
        CalcResult::Error(e) if row == 0 && col == 0 => e.text(),
        _ => String::new(),
    }
}

fn dims(r: &CalcResult) -> (usize, usize) {
    match r {
        CalcResult::Array(g) => (g.len(), g.first().map(|line| line.len()).unwrap_or(0)),
        _ => (0, 0),
    }
}

// FILTER

#[test]
fn test_filter_basic_vertical() {
    let m = Model::new();
    let data = column(vec![n(10), n(25), n(30), n(15), n(40)]);
    let flags = column(vec![b(true), b(false), b(true), b(false), b(true)]);
    let r = m.fn_filter(&data, &flags, None);
    assert_eq!(shown(&r, 0, 0), "10", "First filtered value");
    assert_eq!(shown(&r, 1, 0), "30", "Second filtered value (spilled)");
    assert_eq!(shown(&r, 2, 0), "40", "Third filtered value (spilled)");
}

#[test]
fn test_filter_with_condition() {
    let m = Model::new();
    let data = column(vec![n(10), n(25), n(30), n(15), n(40)]);
    // A1:A5>20
    let flags = bools_column(&[false, true, true, false, true]);
    let r = m.fn_filter(&data, &flags, None);
    assert_eq!(shown(&r, 0, 0), "25", "First value > 20");
    assert_eq!(shown(&r, 1, 0), "30", "Second value > 20");
    assert_eq!(shown(&r, 2, 0), "40", "Third value > 20");
}

#[test]
fn test_filter_no_matches_with_if_empty() {
    let m = Model::new();
    let data = column(vec![n(10), n(20), n(30)]);
    let flags = bools_column(&[false, false, false]);
    let r = m.fn_filter(&data, &flags, Some(CalcResult::Text("No data".to_string())));
    assert_eq!(shown(&r, 0, 0), "No data", "FILTER should return if_empty when no matches");
}

#[test]
fn test_filter_no_matches_without_if_empty() {
    let m = Model::new();
    let data = column(vec![n(10), n(20)]);
    let flags = bools_column(&[false, false]);
    let r = m.fn_filter(&data, &flags, None);
    assert!(
        shown(&r, 0, 0).contains("#CALC"),
        "FILTER without matches should return #CALC!, got: {}",
        shown(&r, 0, 0)
    );
}

#[test]
fn test_filter_2d_array() {
    let m = Model::new();
    let data = range(vec![
        vec![t("Apple"), n(100)],
        vec![t("Banana"), n(200)],
        vec![t("Cherry"), n(300)],
    ]);
    let flags = column(vec![b(false), b(true), b(true)]);
    let r = m.fn_filter(&data, &flags, None);
    assert_eq!(shown(&r, 0, 0), "Banana", "First filtered row, col A");
    assert_eq!(shown(&r, 0, 1), "200", "First filtered row, col B");
    assert_eq!(shown(&r, 1, 0), "Cherry", "Second filtered row, col A");
    assert_eq!(shown(&r, 1, 1), "300", "Second filtered row, col B");
}

#[test]
fn test_filter_with_strings() {
    let m = Model::new();
    let data = column(vec![t("Red"), t("Blue"), t("Red"), t("Green")]);
    // A1:A4="Red"
    let flags = bools_column(&[true, false, true, false]);
    let r = m.fn_filter(&data, &flags, None);
    assert_eq!(shown(&r, 0, 0), "Red", "First Red");
    assert_eq!(shown(&r, 1, 0), "Red", "Second Red");
}

#[test]
fn test_filter_horizontal() {
    let m = Model::new();
    let data = range(vec![vec![n(10), n(20), n(30), n(40)]]);
    let flags = range(vec![vec![b(false), b(true), b(false), b(true)]]);
    let r = m.fn_filter(&data, &flags, None);
    assert_eq!(shown(&r, 0, 0), "20", "First horizontal filtered");
    assert_eq!(shown(&r, 0, 1), "40", "Second horizontal filtered");
}

#[test]
fn test_filter_size_mismatch() {
    let m = Model::new();
    let data = column(vec![n(10), n(20), n(30)]);
    let flags = column(vec![b(true), b(false)]);
    let r = m.fn_filter(&data, &flags, None);
    assert!(
        shown(&r, 0, 0).contains("#VALUE"),
        "FILTER should return #VALUE! for size mismatch, got: {}",
        shown(&r, 0, 0)
    );
}

#[test]
fn test_filter_all_true() {
    let m = Model::new();
    let data = column(vec![n(10), n(20), n(30)]);
    let flags = bools_column(&[true, true, true]);
    let r = m.fn_filter(&data, &flags, None);
    assert_eq!(shown(&r, 0, 0), "10");
    assert_eq!(shown(&r, 1, 0), "20");
    assert_eq!(shown(&r, 2, 0), "30");
}

#[test]
fn filter_error_in_array_is_returned() {
    let m = Model::new();
    let r = m.fn_filter(&CalcResult::Error(ErrorKind::Div), &bools_column(&[true]), None);
    assert_eq!(shown(&r, 0, 0), "#DIV/0!");
}

#[test]
fn filter_nonzero_numbers_select() {
    let m = Model::new();
    let data = column(vec![n(1), n(2), n(3)]);
    let flags = column(vec![n(0), n(5), n(-1)]);
    let r = m.fn_filter(&data, &flags, None);
    assert_eq!(dims(&r), (2, 1));
    assert_eq!(shown(&r, 0, 0), "2");
    assert_eq!(shown(&r, 1, 0), "3");
}

// SEQUENCE

#[test]
fn test_sequence_single_column() {
    let m = Model::new();
    let r = m.fn_sequence(num(5), None, None, None);
    assert_eq!(shown(&r, 0, 0), "1");
    assert_eq!(shown(&r, 1, 0), "2");
    assert_eq!(shown(&r, 2, 0), "3");
    assert_eq!(shown(&r, 3, 0), "4");
    assert_eq!(shown(&r, 4, 0), "5");
}

#[test]
fn test_sequence_matrix() {
    let m = Model::new();
    let r = m.fn_sequence(num(3), Some(num(4)), None, None);
    assert_eq!(shown(&r, 0, 0), "1");
    assert_eq!(shown(&r, 0, 1), "2");
    assert_eq!(shown(&r, 0, 2), "3");
    assert_eq!(shown(&r, 0, 3), "4");
    assert_eq!(shown(&r, 1, 0), "5");
    assert_eq!(shown(&r, 1, 3), "8");
    assert_eq!(shown(&r, 2, 0), "9");
    assert_eq!(shown(&r, 2, 3), "12");
}

#[test]
fn test_sequence_custom_start() {
    let m = Model::new();
    let r = m.fn_sequence(num(4), Some(num(1)), Some(num(10)), None);
    assert_eq!(shown(&r, 0, 0), "10");
    assert_eq!(shown(&r, 1, 0), "11");
    assert_eq!(shown(&r, 2, 0), "12");
    assert_eq!(shown(&r, 3, 0), "13");
}

#[test]
fn test_sequence_custom_step() {
    let m = Model::new();
    let r = m.fn_sequence(num(5), Some(num(1)), Some(num(0)), Some(num(5)));
    assert_eq!(shown(&r, 0, 0), "0");
    assert_eq!(shown(&r, 1, 0), "5");
    assert_eq!(shown(&r, 2, 0), "10");
    assert_eq!(shown(&r, 3, 0), "15");
    assert_eq!(shown(&r, 4, 0), "20");
}

#[test]
fn test_sequence_negative_step() {
    let m = Model::new();
    let r = m.fn_sequence(num(4), Some(num(1)), Some(num(100)), Some(num(-10)));
    assert_eq!(shown(&r, 0, 0), "100");
    assert_eq!(shown(&r, 1, 0), "90");
    assert_eq!(shown(&r, 2, 0), "80");
    assert_eq!(shown(&r, 3, 0), "70");
}

#[test]
fn test_sequence_single_cell() {
    let m = Model::new();
    let r = m.fn_sequence(num(1), Some(num(1)), None, None);
    assert_eq!(shown(&r, 0, 0), "1");
}

#[test]
fn test_sequence_decimal_step() {
    let m = Model::new();
    let half = Number::from_scaled(500_000_000);
    let r = m.fn_sequence(num(3), Some(num(1)), Some(num(0)), Some(half));
    assert_eq!(shown(&r, 0, 0), "0");
    assert_eq!(shown(&r, 1, 0), "0.5");
    assert_eq!(shown(&r, 2, 0), "1");
}

#[test]
fn test_sequence_invalid_rows() {
    let m = Model::new();
    let r = m.fn_sequence(num(0), None, None, None);
    let s = shown(&r, 0, 0);
    assert!(s.contains("#VALUE") || s.contains("#CALC"), "SEQUENCE(0) should return error, got: {}", s);
}

#[test]
fn test_sequence_negative_rows() {
    let m = Model::new();
    let r = m.fn_sequence(num(-1), None, None, None);
    let s = shown(&r, 0, 0);
    assert!(s.contains("#VALUE") || s.contains("#CALC"), "SEQUENCE(-1) should return error, got: {}", s);
}

#[test]
fn test_sequence_large() {
    let m = Model::new();
    let r = m.fn_sequence(num(10), Some(num(10)), None, None);
    assert_eq!(shown(&r, 0, 0), "1");
    assert_eq!(shown(&r, 0, 9), "10");
    assert_eq!(shown(&r, 9, 0), "91");
    assert_eq!(shown(&r, 9, 9), "100");
}

// SORT

#[test]
fn test_sort_ascending_numbers() {
    let m = Model::new();
    let data = column(vec![n(30), n(10), n(50), n(20), n(40)]);
    let r = m.fn_sort(&data, None, None, false);
    assert_eq!(shown(&r, 0, 0), "10");
    assert_eq!(shown(&r, 1, 0), "20");
    assert_eq!(shown(&r, 2, 0), "30");
    assert_eq!(shown(&r, 3, 0), "40");
    assert_eq!(shown(&r, 4, 0), "50");
}

#[test]
fn test_sort_descending() {
    let m = Model::new();
    let data = column(vec![n(10), n(30), n(20)]);
    let r = m.fn_sort(&data, Some(num(1)), Some(num(-1)), false);
    assert_eq!(shown(&r, 0, 0), "30");
    assert_eq!(shown(&r, 1, 0), "20");
    assert_eq!(shown(&r, 2, 0), "10");
}

#[test]
fn test_sort_strings_alphabetical() {
    let m = Model::new();
    let data = column(vec![t("Cherry"), t("Apple"), t("Banana")]);
    let r = m.fn_sort(&data, None, None, false);
    assert_eq!(shown(&r, 0, 0), "Apple");
    assert_eq!(shown(&r, 1, 0), "Banana");
    assert_eq!(shown(&r, 2, 0), "Cherry");
}

#[test]
fn test_sort_2d_by_column() {
    let m = Model::new();
    let data = range(vec![
        vec![t("Bob"), n(30)],
        vec![t("Alice"), n(25)],
        vec![t("Charlie"), n(35)],
    ]);
    let r = m.fn_sort(&data, Some(num(2)), None, false);
    assert_eq!(shown(&r, 0, 0), "Alice");
    assert_eq!(shown(&r, 0, 1), "25");
    assert_eq!(shown(&r, 1, 0), "Bob");
    assert_eq!(shown(&r, 1, 1), "30");
    assert_eq!(shown(&r, 2, 0), "Charlie");
    assert_eq!(shown(&r, 2, 1), "35");
}

#[test]
fn test_sort_by_col_horizontal() {
    let m = Model::new();
    let data = range(vec![vec![n(30), n(10), n(20)]]);
    let r = m.fn_sort(&data, Some(num(1)), Some(num(1)), true);
    assert_eq!(shown(&r, 0, 0), "10");
    assert_eq!(shown(&r, 0, 1), "20");
    assert_eq!(shown(&r, 0, 2), "30");
}

#[test]
fn test_sort_single_element() {
    let m = Model::new();
    let data = range(vec![vec![t("Only")]]);
    let r = m.fn_sort(&data, None, None, false);
    assert_eq!(shown(&r, 0, 0), "Only");
}

#[test]
fn test_sort_mixed_types() {
    let m = Model::new();
    let data = column(vec![t("Text"), n(100), t("Another"), n(50)]);
    let r = m.fn_sort(&data, None, None, false);
    assert_eq!(shown(&r, 0, 0), "50");
    assert_eq!(shown(&r, 1, 0), "100");
    assert_eq!(shown(&r, 2, 0), "Another");
    assert_eq!(shown(&r, 3, 0), "Text");
}

#[test]
fn test_sort_stable() {
    let m = Model::new();
    let data = range(vec![vec![t("A"), n(1)], vec![t("B"), n(1)], vec![t("C"), n(1)]]);
    let r = m.fn_sort(&data, Some(num(2)), None, false);
    assert_eq!(shown(&r, 0, 0), "A");
    assert_eq!(shown(&r, 1, 0), "B");
    assert_eq!(shown(&r, 2, 0), "C");
}

#[test]
fn sortby_orders_by_the_keys_of_another_array() {
    let m = Model::new();
    let names = column(vec![t("x"), t("y"), t("z"), t("w")]);
    let scores = column(vec![n(3), n(1), n(2), n(1)]);
    // SORTBY(names, scores, -1)
    let r = m.fn_sortby(&names, &scores, Some(num(-1)));
    let got: Vec<String> = (0..4).map(|i| shown(&r, i, 0)).collect();
    assert_eq!(got, vec!["x", "z", "y", "w"]);
    // SORTBY(names, scores): equal keys keep their order
    let r = m.fn_sortby(&names, &scores, None);
    let got: Vec<String> = (0..4).map(|i| shown(&r, i, 0)).collect();
    assert_eq!(got, vec!["y", "w", "z", "x"]);
    // The keys may be a row; whole rows move together.
    let table = range(vec![vec![t("a"), n(10)], vec![t("b"), n(20)]]);
    let keys = range(vec![vec![t("beta"), t("alpha")]]);
    let r = m.fn_sortby(&table, &keys, None);
    assert_eq!((shown(&r, 0, 0), shown(&r, 0, 1)), ("b".to_string(), "20".to_string()));
    assert_eq!((shown(&r, 1, 0), shown(&r, 1, 1)), ("a".to_string(), "10".to_string()));
    // A key count that differs from the row count, or an error, is an error.
    assert_eq!(shown(&m.fn_sortby(&names, &column(vec![n(1), n(2)]), None), 0, 0), "#VALUE!");
    assert_eq!(shown(&m.fn_sortby(&names, &CalcResult::Error(ErrorKind::Na), None), 0, 0), "#N/A");
}

#[test]
fn sort_is_a_permutation_of_its_rows() {
    let m = Model::new();
    let data = column(vec![n(3), n(1), n(2), n(1)]);
    let r = m.fn_sort(&data, None, None, false);
    let mut got: Vec<String> = (0..4).map(|i| shown(&r, i, 0)).collect();
    assert_eq!(got, vec!["1", "1", "2", "3"]);
    got.sort();
    assert_eq!(got, vec!["1", "1", "2", "3"]);
}

// UNIQUE

#[test]
fn test_unique_basic() {
    let m = Model::new();
    let data = column(vec![t("Apple"), t("Banana"), t("Apple"), t("Cherry"), t("Banana")]);
    let r = m.fn_unique(&data, false, false);
    assert_eq!(shown(&r, 0, 0), "Apple");
    assert_eq!(shown(&r, 1, 0), "Banana");
    assert_eq!(shown(&r, 2, 0), "Cherry");
}

#[test]
fn test_unique_numbers() {
    let m = Model::new();
    let data = column(vec![n(10), n(20), n(10), n(30), n(20)]);
    let r = m.fn_unique(&data, false, false);
    assert_eq!(shown(&r, 0, 0), "10");
    assert_eq!(shown(&r, 1, 0), "20");
    assert_eq!(shown(&r, 2, 0), "30");
}

#[test]
fn test_unique_exactly_once() {
    let m = Model::new();
    let data = column(vec![t("Apple"), t("Banana"), t("Apple"), t("Cherry")]);
    let r = m.fn_unique(&data, false, true);
    assert_eq!(shown(&r, 0, 0), "Banana");
    assert_eq!(shown(&r, 1, 0), "Cherry");
}

#[test]
fn test_unique_by_column() {
    let m = Model::new();
    let data = range(vec![vec![n(10), n(20), n(10), n(30)]]);
    let r = m.fn_unique(&data, true, false);
    assert_eq!(shown(&r, 0, 0), "10");
    assert_eq!(shown(&r, 0, 1), "20");
    assert_eq!(shown(&r, 0, 2), "30");
}

#[test]
fn test_unique_2d_rows() {
    let m = Model::new();
    let data = range(vec![
        vec![t("Apple"), t("Red")],
        vec![t("Banana"), t("Yellow")],
        vec![t("Apple"), t("Red")],
    ]);
    let r = m.fn_unique(&data, false, false);
    assert_eq!(shown(&r, 0, 0), "Apple");
    assert_eq!(shown(&r, 0, 1), "Red");
    assert_eq!(shown(&r, 1, 0), "Banana");
    assert_eq!(shown(&r, 1, 1), "Yellow");
}

#[test]
fn test_unique_empty_result() {
    let m = Model::new();
    let data = column(vec![t("X"), t("X")]);
    let r = m.fn_unique(&data, false, true);
    assert!(
        shown(&r, 0, 0).contains("#CALC"),
        "UNIQUE with no matches should return #CALC!, got: {}",
        shown(&r, 0, 0)
    );
}

#[test]
fn test_unique_single_value() {
    let m = Model::new();
    let data = range(vec![vec![t("Only")]]);
    let r = m.fn_unique(&data, false, false);
    assert_eq!(shown(&r, 0, 0), "Only");
}

#[test]
fn test_unique_preserves_order() {
    let m = Model::new();
    let data = column(vec![t("C"), t("A"), t("B"), t("A")]);
    let r = m.fn_unique(&data, false, false);
    assert_eq!(shown(&r, 0, 0), "C");
    assert_eq!(shown(&r, 1, 0), "A");
    assert_eq!(shown(&r, 2, 0), "B");
}

#[test]
fn unique_ignores_case_of_texts() {
    let m = Model::new();
    let data = column(vec![t("apple"), t("APPLE"), t("Pear")]);
    let r = m.fn_unique(&data, false, false);
    assert_eq!(dims(&r), (2, 1));
    assert_eq!(shown(&r, 0, 0), "apple");
    assert_eq!(shown(&r, 1, 0), "Pear");
}

// XMATCH, exercised the way XLOOKUP uses it: the position it gives picks
// the value from the return range.

fn pick(values: &[&str], position: &CalcResult) -> String {
    match position {
        CalcResult::Number(p) => values[(p.to_usize() - 1) as usize].to_string(),
        other => shown(other, 0, 0),
    }
}

#[test]
fn test_xlookup_exact_match_found() {
    let m = Model::new();
    let keys = column(vec![t("Apple"), t("Banana"), t("Cherry")]);
    let p = m.fn_xmatch(&CalcResult::Text("Banana".to_string()), &keys, None, None);
    assert_eq!(pick(&["100", "200", "300"], &p), "200", "XLOOKUP should find 'Banana' and return 200");
}

#[test]
fn test_xlookup_exact_match_not_found() {
    let m = Model::new();
    let keys = column(vec![t("Apple"), t("Banana")]);
    let p = m.fn_xmatch(&CalcResult::Text("Cherry".to_string()), &keys, None, None);
    let got = pick(&["100", "200"], &p);
    assert!(got.contains("#N/A"), "XLOOKUP should return #N/A when not found, got: {}", got);
}

#[test]
fn test_xlookup_numeric_lookup() {
    let m = Model::new();
    let keys = column(vec![n(10), n(20), n(30)]);
    let p = m.fn_xmatch(&CalcResult::Number(num(20)), &keys, None, None);
    assert_eq!(pick(&["Ten", "Twenty", "Thirty"], &p), "Twenty");
}

#[test]
fn test_xlookup_reverse_search() {
    let m = Model::new();
    let keys = column(vec![t("X"), t("Y"), t("X")]);
    let values = ["First X", "Y value", "Second X"];
    let first = m.fn_xmatch(&CalcResult::Text("X".to_string()), &keys, None, None);
    let last = m.fn_xmatch(&CalcResult::Text("X".to_string()), &keys, Some(num(0)), Some(num(-1)));
    assert_eq!(pick(&values, &first), "First X", "Default search should find first match");
    assert_eq!(pick(&values, &last), "Second X", "Reverse search should find last match");
}

#[test]
fn test_xlookup_horizontal_lookup() {
    let m = Model::new();
    let keys = range(vec![vec![t("Jan"), t("Feb"), t("Mar")]]);
    let p = m.fn_xmatch(&CalcResult::Text("Feb".to_string()), &keys, None, None);
    assert_eq!(pick(&["100", "200", "300"], &p), "200", "XLOOKUP should work horizontally");
}

#[test]
fn test_xlookup_case_insensitive() {
    let m = Model::new();
    let keys = column(vec![t("APPLE"), t("banana")]);
    let p1 = m.fn_xmatch(&CalcResult::Text("apple".to_string()), &keys, None, None);
    let p2 = m.fn_xmatch(&CalcResult::Text("BANANA".to_string()), &keys, None, None);
    assert_eq!(pick(&["100", "200"], &p1), "100", "XLOOKUP should be case-insensitive");
    assert_eq!(pick(&["100", "200"], &p2), "200", "XLOOKUP should be case-insensitive");
}

#[test]
fn test_xlookup_error_propagation() {
    let m = Model::new();
    let keys = column(vec![Cell::Error(ErrorKind::Div), t("Valid")]);
    let p = m.fn_xmatch(&CalcResult::Error(ErrorKind::Div), &keys, None, None);
    assert!(pick(&["100", "200"], &p).contains("#DIV/0"), "XLOOKUP should propagate error from lookup_value");
}

// TAKE, DROP, CHOOSECOLS, CHOOSEROWS

fn grid_3x3() -> CalcResult {
    range(vec![
        vec![n(1), n(2), n(3)],
        vec![n(4), n(5), n(6)],
        vec![n(7), n(8), n(9)],
    ])
}

#[test]
fn take_from_start_and_end() {
    let m = Model::new();
    let r = m.fn_take(&grid_3x3(), num(2), None);
    assert_eq!(dims(&r), (2, 3));
    assert_eq!(shown(&r, 1, 2), "6");
    let r = m.fn_take(&grid_3x3(), num(-1), Some(num(-2)));
    assert_eq!(dims(&r), (1, 2));
    assert_eq!(shown(&r, 0, 0), "8");
    assert_eq!(shown(&r, 0, 1), "9");
}

#[test]
fn drop_from_start_and_end() {
    let m = Model::new();
    let r = m.fn_drop(&grid_3x3(), num(1), Some(num(1)));
    assert_eq!(dims(&r), (2, 2));
    assert_eq!(shown(&r, 0, 0), "5");
    let r = m.fn_drop(&grid_3x3(), num(-2), None);
    assert_eq!(dims(&r), (1, 3));
    assert_eq!(shown(&r, 0, 2), "3");
}

#[test]
fn choosecols_and_chooserows() {
    let m = Model::new();
    let r = m.fn_choosecols(&grid_3x3(), &vec![num(3), num(-3)]);
    assert_eq!(dims(&r), (3, 2));
    assert_eq!(shown(&r, 0, 0), "3");
    assert_eq!(shown(&r, 0, 1), "1");
    let r = m.fn_chooserows(&grid_3x3(), &vec![num(2)]);
    assert_eq!(shown(&r, 0, 1), "5");
    let r = m.fn_chooserows(&grid_3x3(), &vec![num(4)]);
    assert_eq!(shown(&r, 0, 0), "#VALUE!");
}

// VSTACK, HSTACK

#[test]
fn vstack_pads_short_rows() {
    let m = Model::new();
    let a = range(vec![vec![n(1), n(2)]]);
    let b = range(vec![vec![n(3)]]);
    let r = m.fn_vstack(&vec![a, b]);
    assert_eq!(dims(&r), (2, 2));
    assert_eq!(shown(&r, 1, 0), "3");
    assert_eq!(shown(&r, 1, 1), "");
}

#[test]
fn hstack_joins_side_by_side() {
    let m = Model::new();
    let a = column(vec![n(1), n(2)]);
    let b = column(vec![n(3)]);
    let r = m.fn_hstack(&vec![a, b]);
    assert_eq!(dims(&r), (2, 2));
    assert_eq!(shown(&r, 0, 1), "3");
    assert_eq!(shown(&r, 1, 0), "2");
}

// WRAPROWS, WRAPCOLS, EXPAND, TEXTSPLIT

#[test]
fn wraprows_pads_with_na() {
    let m = Model::new();
    let v = range(vec![vec![n(1), n(2), n(3), n(4), n(5)]]);
    let r = m.fn_wraprows(&v, num(2), None);
    assert_eq!(dims(&r), (3, 2));
    assert_eq!(shown(&r, 1, 1), "4");
    assert_eq!(shown(&r, 2, 1), "#N/A");
    let r = m.fn_wraprows(&v, num(0), None);
    assert_eq!(shown(&r, 0, 0), "#VALUE!");
}

#[test]
fn wrapcols_fills_column_by_column() {
    let m = Model::new();
    let v = range(vec![vec![n(1), n(2), n(3), n(4), n(5)]]);
    let r = m.fn_wrapcols(&v, num(2), Some(CalcResult::Number(num(0))));
    assert_eq!(dims(&r), (2, 3));
    assert_eq!(shown(&r, 0, 1), "3");
    assert_eq!(shown(&r, 1, 0), "2");
    assert_eq!(shown(&r, 1, 2), "0");
}

#[test]
fn expand_grows_but_never_shrinks() {
    let m = Model::new();
    let a = range(vec![vec![n(1), n(2)], vec![n(3), n(4)]]);
    let r = m.fn_expand(&a, num(3), Some(num(1)), Some(CalcResult::Text("-".to_string())));
    assert_eq!(dims(&r), (3, 2));
    assert_eq!(shown(&r, 1, 1), "4");
    assert_eq!(shown(&r, 2, 0), "-");
}

#[test]
fn textsplit_rows_and_columns() {
    let m = Model::new();
    let r = m.fn_textsplit("a,b;c", ",", Some(CalcResult::Text(";".to_string())), false, None);
    assert_eq!(dims(&r), (2, 2));
    assert_eq!(shown(&r, 0, 1), "b");
    assert_eq!(shown(&r, 1, 0), "c");
    assert_eq!(shown(&r, 1, 1), "#N/A");
    let r = m.fn_textsplit("a,,b", ",", None, true, None);
    assert_eq!(dims(&r), (1, 2));
    assert_eq!(shown(&r, 0, 1), "b");
    let r = m.fn_textsplit("solo", ",", None, false, None);
    assert!(matches!(r, CalcResult::Text(ref s) if s == "solo"));
}

#[test]
fn randarray_shape_checks() {
    let m = Model::new();
    assert_eq!(m.randarray_shape(Some(num(2)), Some(num(3)), None, None), Ok((2, 3)));
    assert_eq!(m.randarray_shape(Some(num(0)), None, None, None), Err(ErrorKind::Value));
    assert_eq!(m.randarray_shape(None, None, Some(num(5)), Some(num(1))), Err(ErrorKind::Value));
    assert_eq!(m.randarray_shape(None, None, None, None), Ok((1, 1)));
}

#[test]
fn test_xlookup_approximate_next_smaller() {
    let m = Model::new();
    let keys = column(vec![n(10), n(20), n(30), n(40)]);
    let p = m.fn_xmatch(&CalcResult::Number(num(25)), &keys, Some(num(-1)), None);
    assert_eq!(
        pick(&["Low", "Medium", "High", "Very High"], &p),
        "Medium",
        "XLOOKUP with match_mode=-1 should find 20 (next smaller than 25)"
    );
}

#[test]
fn test_xlookup_approximate_next_larger() {
    let m = Model::new();
    let keys = column(vec![n(10), n(20), n(30), n(40)]);
    let p = m.fn_xmatch(&CalcResult::Number(num(25)), &keys, Some(num(1)), None);
    assert_eq!(
        pick(&["Low", "Medium", "High", "Very High"], &p),
        "High",
        "XLOOKUP with match_mode=1 should find 30 (next larger than 25)"
    );
}

#[test]
fn xmatch_approximate_modes() {
    let m = Model::new();
    let keys = column(vec![n(30), n(10), n(40), n(20), n(20)]);
    let at = |v: i64, mode: i64, search: i64| shown(&m.fn_xmatch(&CalcResult::Number(num(v)), &keys, Some(num(mode)), Some(num(search))), 0, 0);
    // An exact match wins over a nearer approximate one.
    assert_eq!(at(40, -1, 1), "3");
    // Unsorted data: the largest below, the smallest above.
    assert_eq!(at(25, -1, 1), "4");
    assert_eq!(at(25, -1, -1), "5");
    assert_eq!(at(25, 1, 1), "1");
    assert_eq!(at(5, -1, 1), "#N/A");
    assert_eq!(at(50, 1, 1), "#N/A");
    assert_eq!(at(25, 0, 1), "#N/A");
}

#[test]
fn test_xlookup_wildcard_match() {
    let m = Model::new();
    let keys = column(vec![t("Apple Pie"), t("Banana Bread"), t("Cherry Cake")]);
    let p = m.fn_xmatch(&CalcResult::Text("*Bread".to_string()), &keys, Some(num(2)), None);
    assert_eq!(
        pick(&["Dessert 1", "Dessert 2", "Dessert 3"], &p),
        "Dessert 2",
        "XLOOKUP with wildcard should match 'Banana Bread'"
    );
}

#[test]
fn xmatch_wildcard_mode() {
    let m = Model::new();
    let keys = column(vec![t("cat"), t("Cart"), t("c*t"), n(5)]);
    let at = |v: CalcResult, search: i64| shown(&m.fn_xmatch(&v, &keys, Some(num(2)), Some(num(search))), 0, 0);
    assert_eq!(at(CalcResult::Text("C?RT".to_string()), 1), "2");
    assert_eq!(at(CalcResult::Text("c*t".to_string()), 1), "1");
    assert_eq!(at(CalcResult::Text("c*t".to_string()), -1), "3");
    assert_eq!(at(CalcResult::Text("c~*t".to_string()), 1), "3");
    assert_eq!(at(CalcResult::Text("ca".to_string()), 1), "#N/A");
    // A number is looked up exactly.
    assert_eq!(at(CalcResult::Number(num(5)), 1), "4");
}

#[test]
fn sequence_beyond_the_number_range_is_num() {
    let m = Model::new();
    let huge = Number::from_scaled(i128::MAX - 1);
    let r = m.fn_sequence(num(3), None, Some(huge), None);
    assert_eq!(shown(&r, 0, 0), "#NUM!");
    let r = m.fn_sequence(num(1), None, Some(Number::from_scaled(i128::MAX - 2_000_000_000)), None);
    assert_eq!(dims(&r), (1, 1));
}
