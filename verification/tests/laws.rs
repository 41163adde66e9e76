use ironcalc_base::model::Model;
use ironcalc_base::number::Number;
use ironcalc_base::values::{ArrayNode, CalcResult};

fn num(x: i64) -> Number {
    Number::from_int(x)
}

fn text_of(r: &CalcResult) -> String {
    match r {
        CalcResult::Text(s) => s.clone(),
        CalcResult::Number(x) => x.to_text(),
        CalcResult::Error(e) => e.text(),
        _ => String::new(),
    }
}

fn first_row_texts(r: &CalcResult) -> Vec<CalcResult> {
    match r {
        CalcResult::Array(g) => g[0]
            .iter()
            .map(|n| match n {
                ArrayNode::Text(s) => CalcResult::Text(s.clone()),
                ArrayNode::Number(x) => CalcResult::Number(*x),
                ArrayNode::Boolean(b) => CalcResult::Boolean(*b),
                ArrayNode::Error(e) => CalcResult::Error(*e),
            })
            .collect(),
        other => vec![CalcResult::Text(text_of(other))],
    }
}

#[test]
fn transpose_twice_gives_back_the_array() {
    let g = vec![
        vec![ArrayNode::Number(num(1)), ArrayNode::Number(num(2)), ArrayNode::Number(num(3))],
        vec![ArrayNode::Number(num(4)), ArrayNode::Number(num(5)), ArrayNode::Number(num(6))],
    ];
    let back = Model::transpose_2d(&Model::transpose_2d(&g));
    assert_eq!(format!("{:?}", back), format!("{:?}", g));
    assert_eq!(Model::transpose_2d(&g).len(), 3);
}

#[test]
fn textjoin_undoes_textsplit_and_substitute_by_itself_changes_nothing() {
    let m = Model::new();
    for (s, d) in [("a,,b,c,", ","), ("x--y---z", "--"), ("plain", ";")].iter() {
        let pieces = m.fn_textsplit(s, d, None, false, None);
        let joined = m.fn_textjoin(d, false, &first_row_texts(&pieces));
        assert_eq!(text_of(&joined), *s);
        assert_eq!(text_of(&m.fn_substitute(s, d, d, None)), *s);
    }
}

#[test]
fn left_and_right_of_complementary_lengths_rebuild_the_text() {
    let m = Model::new();
    let s = CalcResult::Text("complement".to_string());
    for k in 0..=10 {
        let left = text_of(&m.fn_left(&s, Some(CalcResult::Number(num(k)))));
        let right = text_of(&m.fn_right(&s, Some(CalcResult::Number(num(10 - k)))));
        assert_eq!(format!("{}{}", left, right), "complement");
    }
    let whole = m.fn_mid(&s, &CalcResult::Number(num(1)), &CalcResult::Number(num(10)));
    assert_eq!(text_of(&whole), "complement");
}

#[test]
fn trim_of_a_trimmed_text_changes_nothing() {
    let m = Model::new();
    let once = m.fn_trim(&CalcResult::Text("\u{a0} two  words \n".to_string()));
    let twice = m.fn_trim(&once);
    assert_eq!(text_of(&once), "two  words");
    assert_eq!(text_of(&twice), text_of(&once));
}

#[test]
fn scan_ends_where_reduce_ends() {
    let m = Model::new();
    let a = CalcResult::Array(vec![
        vec![ArrayNode::Number(num(2)), ArrayNode::Number(num(3))],
        vec![ArrayNode::Number(num(5))],
    ]);
    let add = |x: ArrayNode, y: ArrayNode| match (x, y) {
        (ArrayNode::Number(p), ArrayNode::Number(q)) => ArrayNode::Number(Number::from_scaled(p.scaled + q.scaled)),
        (other, _) => other,
    };
    let scanned = m.fn_scan(&CalcResult::Number(num(1)), &a, add);
    let reduced = m.fn_reduce(&CalcResult::Number(num(1)), &a, add);
    let last = match &scanned {
        CalcResult::Array(g) => match g[1][0] {
            ArrayNode::Number(x) => x,
            _ => panic!("not a number"),
        },
        _ => panic!("not an array"),
    };
    assert_eq!(last.to_text(), text_of(&reduced));
    assert_eq!(text_of(&reduced), "11");
}

#[test]
fn wraprows_keeps_elements_in_place() {
    let m = Model::new();
    let v = CalcResult::Array(vec![(1..=7).map(|x| ArrayNode::Number(num(x))).collect()]);
    let r = m.fn_wraprows(&v, num(3), None);
    if let CalcResult::Array(g) = r {
        for k in 0..7usize {
            match &g[k / 3][k % 3] {
                ArrayNode::Number(x) => assert_eq!(x.to_text(), (k + 1).to_string()),
                other => panic!("unexpected {:?}", other),
            }
        }
    } else {
        panic!("not an array");
    }
}

#[test]
fn let_binding_shadows_and_keeps_other_names() {
    let mut m = Model::new();
    let saved = m.lambda_scope.len();
    m.let_step(saved, Some("a".to_string()), CalcResult::Number(num(1)));
    m.let_step(saved, Some("b".to_string()), CalcResult::Number(num(2)));
    m.let_step(saved, Some("a".to_string()), CalcResult::Number(num(3)));
    let a = m.lookup("a").unwrap();
    let b = m.lookup("b").unwrap();
    assert_eq!(text_of(&m.lambda_scope[a].1), "3");
    assert_eq!(text_of(&m.lambda_scope[b].1), "2");
    m.let_end(saved, CalcResult::EmptyArg);
    assert!(m.lookup("a").is_none() && m.lookup("b").is_none());
}

fn rows_text(r: &CalcResult) -> Vec<Vec<String>> {
    match r {
        CalcResult::Array(g) => g
            .iter()
            .map(|row| {
                row.iter()
                    .map(|n| match n {
                        ArrayNode::Number(x) => x.to_text(),
                        ArrayNode::Text(s) => s.clone(),
                        ArrayNode::Boolean(b) => b.to_string(),
                        ArrayNode::Error(e) => e.text(),
                    })
                    .collect()
            })
            .collect(),
        _ => vec![],
    }
}

#[test]
fn take_and_drop_split_the_rows() {
    let m = Model::new();
    let a = CalcResult::Array(
        (0..4).map(|i| (0..2).map(|j| ArrayNode::Number(num(i * 10 + j))).collect()).collect(),
    );
    let all = rows_text(&a);
    for k in [1i64, 3, -1, -3].iter() {
        let taken = rows_text(&m.fn_take(&a, num(*k), None));
        let dropped = rows_text(&m.fn_drop(&a, num(*k), None));
        let joined: Vec<Vec<String>> = if *k >= 0 {
            taken.iter().chain(dropped.iter()).cloned().collect()
        } else {
            dropped.iter().chain(taken.iter()).cloned().collect()
        };
        assert_eq!(joined, all);
    }
}

#[test]
fn before_delimiter_after_rebuilds_the_text() {
    let m = Model::new();
    let b = m.fn_textbefore("a-b-c", "-", None, None, None, None);
    let a = m.fn_textafter("a-b-c", "-", None, None, None, None);
    assert_eq!(text_of(&b), "a");
    assert_eq!(text_of(&a), "b-c");
    assert_eq!(format!("{}-{}", text_of(&b), text_of(&a)), "a-b-c");
}

#[test]
fn unicode_of_unichar_is_the_code() {
    let m = Model::new();
    for code in [65i64, 233, 8364, 128512] {
        let c = m.fn_unichar(num(code));
        assert_eq!(text_of(&m.fn_unicode(&c)), code.to_string());
    }
}

#[test]
fn take_then_drop_is_the_whole_array() {
    let m = Model::new();
    let rows: Vec<Vec<ArrayNode>> = (1..=4).map(|i| vec![ArrayNode::Number(num(i)), ArrayNode::Number(num(10 * i))]).collect();
    let a = CalcResult::Array(rows.clone());
    let firsts = |r: &CalcResult| -> Vec<String> {
        match r {
            CalcResult::Array(g) => g.iter().map(|line| match &line[0] {
                ArrayNode::Number(x) => x.to_text(),
                _ => String::new(),
            }).collect(),
            other => vec![text_of(other)],
        }
    };
    let mut joined = firsts(&m.fn_take(&a, num(1), None));
    joined.extend(firsts(&m.fn_drop(&a, num(1), None)));
    assert_eq!(joined, vec!["1", "2", "3", "4"]);
    let mut joined = firsts(&m.fn_drop(&a, num(-3), None));
    joined.extend(firsts(&m.fn_take(&a, num(-3), None)));
    assert_eq!(joined, vec!["1", "2", "3", "4"]);
    assert_eq!(text_of(&m.fn_drop(&a, num(4), None)), "#CALC!");
}

#[test]
fn search_is_find_ignoring_case() {
    let m = Model::new();
    assert_eq!(text_of(&m.fn_search("B", "abc", None)), "2");
    assert_eq!(text_of(&m.fn_find("b", "abc", None)), "2");
    assert_eq!(text_of(&m.fn_search("CD", "abcdcd", Some(num(4)))), text_of(&m.fn_find("cd", "abcdcd", Some(num(4)))));
    assert_eq!(text_of(&m.fn_search("x", "abc", None)), text_of(&m.fn_find("x", "abc", None)));
}
