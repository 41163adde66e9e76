use ironcalc_base::model::Model;
use ironcalc_base::number::Number;
use ironcalc_base::grouping::{dollar_text, fixed_with_commas};
use ironcalc_base::text::{find, numbervalue_cleaned, search};
use ironcalc_base::values::{CalcResult, Cell, ErrorKind};

fn num(x: i64) -> Number {
    Number::from_int(x)
}

fn text(s: &str) -> CalcResult {
    CalcResult::Text(s.to_string())
}

fn shown(r: &CalcResult) -> String {
    match r {
        CalcResult::Text(s) => s.clone(),
        CalcResult::Number(x) => x.to_text(),
        CalcResult::Boolean(true) => "TRUE".to_string(),
        CalcResult::Boolean(false) => "FALSE".to_string(),
        CalcResult::Error(e) => e.text(),
        _ => String::new(),
    }
}

/// CODE of a text.
fn code_of(m: &Model, s: &str) -> CalcResult {
    m.fn_code(s)
}

#[test]
fn test_char() {
    let m = Model::new();
    assert_eq!(shown(&m.fn_char(num(65))), "A");
    assert_eq!(shown(&m.fn_char(num(97))), "a");
    assert_eq!(shown(&m.fn_char(num(48))), "0");
    assert_eq!(shown(&m.fn_char(num(32))), " ");
    assert!(shown(&m.fn_char(num(0))).starts_with("#VALUE!"));
    assert!(shown(&m.fn_char(num(256))).starts_with("#VALUE!"));
}

#[test]
fn test_code() {
    let m = Model::new();
    assert_eq!(shown(&code_of(&m, "A")), "65");
    assert_eq!(shown(&code_of(&m, "a")), "97");
    assert_eq!(shown(&code_of(&m, "0")), "48");
    assert_eq!(shown(&code_of(&m, "ABC")), "65");
    assert!(shown(&code_of(&m, "")).starts_with("#VALUE!"));
}

#[test]
fn test_unichar() {
    let m = Model::new();
    assert_eq!(shown(&m.fn_unichar(num(65))), "A");
    assert_eq!(shown(&m.fn_unichar(num(8364))), "€");
    assert_eq!(shown(&m.fn_unichar(num(128512))), "😀");
    assert!(shown(&m.fn_unichar(num(0))).starts_with("#VALUE!"));
}

#[test]
fn test_clean() {
    let m = Model::new();
    assert_eq!(shown(&m.fn_clean("Hello")), "Hello");
    // CHAR(9)&"Tab"&CHAR(10)
    let tab = shown(&m.fn_char(num(9)));
    let newline = shown(&m.fn_char(num(10)));
    let joined = shown(&m.fn_concatenate(&vec![tab, "Tab".to_string(), newline]));
    assert_eq!(shown(&m.fn_clean(&joined)), "Tab");
}

#[test]
fn test_proper() {
    let m = Model::new();
    assert_eq!(shown(&m.fn_proper("hello world")), "Hello World");
    assert_eq!(shown(&m.fn_proper("HELLO WORLD")), "Hello World");
    assert_eq!(shown(&m.fn_proper("hello-world")), "Hello-World");
    assert_eq!(shown(&m.fn_proper("2-way street")), "2-Way Street");
    assert_eq!(shown(&m.fn_proper("76BudGet")), "76budget");
}

#[test]
fn test_replace() {
    let m = Model::new();
    assert_eq!(shown(&m.fn_replace("abcdefghij", num(6), num(5), "*")), "abcde*");
    assert_eq!(shown(&m.fn_replace("2014", num(3), num(2), "15")), "2015");
    assert_eq!(shown(&m.fn_replace("XYZ123", num(4), num(3), "456")), "XYZ456");
    assert_eq!(shown(&m.fn_replace("*Q2*", num(1), num(1), "Year-")), "Year-Q2*");
    assert_eq!(shown(&m.fn_replace("hello", num(3), num(0), "XXX")), "heXXXllo");
    assert!(shown(&m.fn_replace("ABC", num(0), num(1), "X")).starts_with("#VALUE!"));
}

#[test]
fn test_char_code_roundtrip() {
    let m = Model::new();
    // CHAR(CODE("A"))
    let code = match code_of(&m, "A") {
        CalcResult::Number(x) => x,
        other => panic!("CODE gave {:?}", other),
    };
    assert_eq!(shown(&m.fn_char(code)), "A");
    // CODE(CHAR(65))
    let c = shown(&m.fn_char(num(65)));
    assert_eq!(shown(&code_of(&m, &c)), "65");
}

#[test]
fn test_unichar_unicode_roundtrip() {
    let m = Model::new();
    // UNICHAR(UNICODE("A"))
    let code = match m.fn_unicode(&text("A")) {
        CalcResult::Number(x) => x,
        other => panic!("UNICODE gave {:?}", other),
    };
    assert_eq!(shown(&m.fn_unichar(code)), "A");
    // UNICODE(UNICHAR(65))
    let c = m.fn_unichar(num(65));
    assert_eq!(shown(&m.fn_unicode(&c)), "65");
}

#[test]
fn len_counts_characters_of_any_value() {
    let m = Model::new();
    assert_eq!(shown(&m.fn_len(&text("héllo"))), "5");
    assert_eq!(shown(&m.fn_len(&CalcResult::Number(Number::from_scaled(-1_500_000_000)))), "4");
    assert_eq!(shown(&m.fn_len(&CalcResult::Boolean(false))), "5");
    assert_eq!(shown(&m.fn_len(&CalcResult::EmptyCell)), "0");
    assert_eq!(shown(&m.fn_len(&CalcResult::Error(ErrorKind::Na))), "#N/A");
    assert_eq!(shown(&m.fn_len(&CalcResult::Lambda)), "#VALUE!");
    assert_eq!(shown(&m.fn_len(&CalcResult::Array(vec![]))), "#N/IMPL!");
}

#[test]
fn trim_lower_upper() {
    let m = Model::new();
    assert_eq!(shown(&m.fn_trim(&text(" \t  a b \u{3000}"))), "a b");
    assert_eq!(shown(&m.fn_trim(&text("   "))), "");
    assert_eq!(shown(&m.fn_lower(&text("ÀB c"))), "àb c");
    assert_eq!(shown(&m.fn_upper(&text("straße"))), "STRASSE");
    assert_eq!(shown(&m.fn_upper(&CalcResult::Boolean(true))), "TRUE");
}

#[test]
fn unicode_of_empty_is_an_error() {
    let m = Model::new();
    assert_eq!(shown(&m.fn_unicode(&CalcResult::EmptyCell)), "#VALUE!");
    assert_eq!(shown(&m.fn_unicode(&text(""))), "#VALUE!");
    assert_eq!(shown(&m.fn_unicode(&text("€uro"))), "8364");
}

#[test]
fn left_right_mid() {
    let m = Model::new();
    let s = text("spreadsheet");
    assert_eq!(shown(&m.fn_left(&s, None)), "s");
    assert_eq!(shown(&m.fn_left(&s, Some(CalcResult::Number(num(6))))), "spread");
    assert_eq!(shown(&m.fn_left(&s, Some(CalcResult::Number(num(99))))), "spreadsheet");
    assert_eq!(shown(&m.fn_left(&s, Some(CalcResult::Number(num(-1))))), "#VALUE!");
    assert_eq!(shown(&m.fn_left(&s, Some(CalcResult::Text("2".to_string())))), "#VALUE!");
    assert_eq!(shown(&m.fn_left(&s, Some(CalcResult::EmptyCell))), "");
    assert_eq!(shown(&m.fn_right(&s, Some(CalcResult::Number(num(5))))), "sheet");
    assert_eq!(shown(&m.fn_right(&s, None)), "t");
    assert_eq!(shown(&m.fn_mid(&s, &CalcResult::Number(num(3)), &CalcResult::Number(num(4)))), "read");
    assert_eq!(shown(&m.fn_mid(&s, &CalcResult::Number(num(20)), &CalcResult::Number(num(4)))), "");
    assert_eq!(shown(&m.fn_mid(&s, &CalcResult::Number(num(0)), &CalcResult::Number(num(4)))), "#VALUE!");
    assert_eq!(shown(&m.fn_mid(&s, &CalcResult::EmptyCell, &CalcResult::Number(num(4)))), "#VALUE!");
    assert_eq!(
        shown(&m.fn_mid(&CalcResult::Number(Number::from_scaled(1_250_000_000)), &CalcResult::Number(num(2)), &CalcResult::Number(num(9)))),
        ".25"
    );
}

#[test]
fn concat_joins_values_and_ranges() {
    let m = Model::new();
    let args = vec![
        text("a"),
        CalcResult::Number(num(1)),
        CalcResult::Boolean(true),
        CalcResult::EmptyArg,
        CalcResult::Range(vec![vec![Cell::Text("x".to_string()), Cell::EmptyCell], vec![Cell::Number(num(2))]]),
    ];
    assert_eq!(shown(&m.fn_concat(&args)), "a1TRUEx2");
    let bad = vec![text("a"), CalcResult::Range(vec![vec![Cell::Error(ErrorKind::Ref)]]), CalcResult::Lambda];
    assert_eq!(shown(&m.fn_concat(&bad)), "#REF!");
    assert_eq!(shown(&m.fn_concat(&vec![CalcResult::Array(vec![])])), "#N/IMPL!");
}

#[test]
fn textjoin_with_and_without_empties() {
    let m = Model::new();
    let values = vec![
        text("a"),
        CalcResult::EmptyCell,
        CalcResult::Range(vec![vec![Cell::Number(num(3)), Cell::EmptyCell, Cell::Boolean(false)]]),
    ];
    assert_eq!(shown(&m.fn_textjoin("-", false, &values)), "a--3--FALSE");
    assert_eq!(shown(&m.fn_textjoin("-", true, &values)), "a-3-FALSE");
    assert_eq!(shown(&m.fn_textjoin("-", true, &vec![])), "#ERROR!");
    assert_eq!(shown(&m.fn_textjoin(", ", true, &vec![CalcResult::Error(ErrorKind::Num)])), "#NUM!");
}

#[test]
fn find_and_search_positions() {
    assert_eq!(find("b", "abcb", 1), Some(2));
    assert_eq!(find("b", "abcb", 3), Some(4));
    assert_eq!(find("", "abc", 2), Some(2));
    assert_eq!(find("z", "abc", 1), None);
    assert_eq!(search("b?", "abcb", 1), Some(2));
    assert_eq!(search("c*", "abcb", 1), Some(3));
    assert_eq!(search("~*", "a*b", 1), Some(2));
    assert_eq!(search("x", "abc", 1), None);
    assert_eq!(search("*", "", 1), None);
}

#[test]
fn fn_find_and_fn_search() {
    let m = Model::new();
    assert_eq!(shown(&m.fn_find("B", "ABAB", Some(num(3)))), "4");
    assert_eq!(shown(&m.fn_find("b", "ABAB", None)), "#VALUE!");
    assert_eq!(shown(&m.fn_find("A", "ABAB", Some(num(0)))), "#VALUE!");
    assert_eq!(shown(&m.fn_find("A", "ABAB", Some(num(5)))), "#VALUE!");
    assert_eq!(shown(&m.fn_search("b", "ABAB", None)), "2");
    assert_eq!(shown(&m.fn_search("a?a", "xABAB", None)), "2");
}

#[test]
fn textafter_and_textbefore() {
    let m = Model::new();
    let pick = |r: CalcResult| shown(&r);
    assert_eq!(pick(m.fn_textafter("a-b-c", "-", None, None, None, None)), "b-c");
    assert_eq!(pick(m.fn_textafter("a-b-c", "-", Some(num(2)), None, None, None)), "c");
    assert_eq!(pick(m.fn_textafter("a-b-c", "-", Some(num(-1)), None, None, None)), "c");
    assert_eq!(pick(m.fn_textbefore("a-b-c", "-", Some(num(-1)), None, None, None)), "a-b");
    assert_eq!(pick(m.fn_textbefore("a-b-c", "-", None, None, None, None)), "a");
    assert_eq!(pick(m.fn_textafter("a-b-c", "-", Some(num(0)), None, None, None)), "#VALUE!");
    assert_eq!(pick(m.fn_textafter("ab", "abc", None, None, None, None)), "#VALUE!");
    assert_eq!(pick(m.fn_textafter("ab", "abc", Some(num(1)), None, None, None)), "#N/A");
    assert_eq!(pick(m.fn_textbefore("ab", "abc", None, None, None, None)), "#VALUE!");
    assert_eq!(pick(m.fn_textbefore("ab", "abc", None, Some(num(0)), None, None)), "#N/A");
    assert_eq!(pick(m.fn_textafter("a-b", "+", None, None, None, None)), "#N/A");
    assert_eq!(pick(m.fn_textafter("a-b", "+", None, None, Some(num(1)), None)), "");
    assert_eq!(pick(m.fn_textbefore("a-b", "+", None, None, Some(num(1)), None)), "a-b");
    assert_eq!(pick(m.fn_textafter("a-b", "+", None, None, Some(num(2)), None)), "#VALUE!");
    assert_eq!(pick(m.fn_textafter("a-b", "+", None, None, None, Some(text("none")))), "none");
    assert_eq!(pick(m.fn_textafter("a-b", "+", None, None, None, Some(CalcResult::EmptyCell))), "");
    assert_eq!(pick(m.fn_textafter("aXbxc", "x", None, Some(num(1)), None, None)), "bxc");
    assert_eq!(pick(m.fn_textafter("aXbxc", "x", None, None, None, None)), "c");
}

#[test]
fn substitute_all_or_one() {
    let m = Model::new();
    assert_eq!(shown(&m.fn_substitute("aaaa", "aa", "b", None)), "bb");
    assert_eq!(shown(&m.fn_substitute("a-b-c", "-", "+", Some(num(2)))), "a-b+c");
    assert_eq!(shown(&m.fn_substitute("a-b-c", "-", "+", Some(num(3)))), "a-b-c");
    assert_eq!(shown(&m.fn_substitute("a-b-c", "-", "+", Some(num(0)))), "#VALUE!");
    assert_eq!(shown(&m.fn_substitute("abc", "", "+", None)), "abc");
}

#[test]
fn rept_t_valuetotext_concatenate() {
    let m = Model::new();
    assert_eq!(shown(&m.fn_rept("ab", num(3))), "ababab");
    assert_eq!(shown(&m.fn_rept("ab", num(0))), "");
    assert_eq!(shown(&m.fn_rept("ab", num(-1))), "#VALUE!");
    assert_eq!(shown(&m.fn_rept("ab", num(20000))), "#VALUE!");
    // The size limit counts bytes: 32767 of them is the most.
    assert_eq!(shown(&m.fn_rept("a", num(32767))).len(), 32767);
    assert_eq!(shown(&m.fn_rept("a", num(32768))), "#VALUE!");
    // A count whose product with the length does not fit in 32 bits.
    assert_eq!(shown(&m.fn_rept("abcdefgh", num(1_000_000_000))), "#VALUE!");
    assert_eq!(shown(&m.fn_t(text("x"))), "x");
    assert_eq!(shown(&m.fn_t(CalcResult::Number(num(3)))), "");
    assert_eq!(shown(&m.fn_t(CalcResult::Error(ErrorKind::Null))), "#NULL!");
    assert_eq!(shown(&m.fn_valuetotext(Ok("v".to_string()))), "v");
    assert_eq!(shown(&m.fn_valuetotext(Err(Some(ErrorKind::Spill)))), "#SPILL!");
    assert_eq!(shown(&m.fn_valuetotext(Err(None))), "");
    assert_eq!(shown(&m.fn_concatenate(&vec!["a".to_string(), "b".to_string()])), "ab");
    assert_eq!(shown(&m.fn_concatenate(&vec![])), "#ERROR!");
}

#[test]
fn value_reads_numbers() {
    let m = Model::new();
    assert_eq!(shown(&m.fn_value(&text("$12"), Some(num(12)))), "12");
    assert_eq!(shown(&m.fn_value(&text("abc"), None)), "#VALUE!");
    assert_eq!(shown(&m.fn_value(&CalcResult::EmptyArg, None)), "0");
    assert_eq!(shown(&m.fn_value(&CalcResult::Boolean(true), None)), "#VALUE!");
    assert_eq!(shown(&m.fn_value(&CalcResult::Array(vec![]), None)), "#N/IMPL!");
}

#[test]
fn error_texts() {
    let all = [
        (ErrorKind::Ref, "#REF!"),
        (ErrorKind::Name, "#NAME?"),
        (ErrorKind::Value, "#VALUE!"),
        (ErrorKind::Div, "#DIV/0!"),
        (ErrorKind::Na, "#N/A"),
        (ErrorKind::Num, "#NUM!"),
        (ErrorKind::Error, "#ERROR!"),
        (ErrorKind::Nimpl, "#N/IMPL!"),
        (ErrorKind::Spill, "#SPILL!"),
        (ErrorKind::Calc, "#CALC!"),
        (ErrorKind::Circ, "#CIRC!"),
        (ErrorKind::Null, "#NULL!"),
    ];
    for (e, s) in all.iter() {
        assert_eq!(e.text(), *s);
    }
}

#[test]
fn number_text_forms() {
    assert_eq!(Number::from_int(0).to_text(), "0");
    assert_eq!(Number::from_int(-42).to_text(), "-42");
    assert_eq!(Number::from_scaled(1_000_000_001).to_text(), "1.000000001");
    assert_eq!(Number::from_scaled(-250_000_000).to_text(), "-0.25");
}

#[test]
fn exact_compares_numbers_to_15_digits_and_texts_exactly() {
    let m = Model::new();
    let big = |units: i128| CalcResult::Number(Number::from_scaled(units * 1_000_000_000));
    assert_eq!(shown(&m.fn_exact(&big(123456789012345678), &big(123456789012345600))), "TRUE");
    assert_eq!(shown(&m.fn_exact(&big(123456789012345678), &big(123456789012344000))), "FALSE");
    assert_eq!(shown(&m.fn_exact(&big(5), &big(-5))), "FALSE");
    assert_eq!(shown(&m.fn_exact(&big(0), &big(0))), "TRUE");
    assert_eq!(shown(&m.fn_exact(&text("Word"), &text("word"))), "FALSE");
    assert_eq!(shown(&m.fn_exact(&text("1"), &CalcResult::Number(num(1)))), "TRUE");
    assert_eq!(shown(&m.fn_exact(&CalcResult::Error(ErrorKind::Na), &text("x"))), "#N/A");
}

#[test]
fn numbervalue_reading_of_the_text() {
    assert_eq!(numbervalue_cleaned(" 1.234,56 ", Some(","), Some(".")), ("1234.56".to_string(), false));
    assert_eq!(numbervalue_cleaned("12%%", None, None), ("12".to_string(), true));
    assert_eq!(numbervalue_cleaned("3 000", None, Some(" ")), ("3000".to_string(), false));
    assert_eq!(numbervalue_cleaned("7", Some(""), None), ("7".to_string(), false));
}

#[test]
fn thousands_separators_and_dollar_form() {
    assert_eq!(fixed_with_commas("1234.57"), "1,234.57");
    assert_eq!(fixed_with_commas("-1234567"), "-1,234,567");
    assert_eq!(fixed_with_commas("999"), "999");
    assert_eq!(fixed_with_commas("0.125"), "0.125");
    assert_eq!(dollar_text("1234.50", false), "$1,234.50");
    assert_eq!(dollar_text("1234.50", true), "($1,234.50)");
    assert_eq!(dollar_text("12", false), "$12");
}

#[test]
fn test_phase1_function_execution() {
    let m = Model::new();
    // FIXED(1234.567, 2): the library groups the digits of the rounded number.
    let result = fixed_with_commas(&format!("{:.2}", 1234.567_f64));
    assert!(result.contains("1,234.57") || result.contains("1234.57"), "FIXED should format number: got {}", result);
    // DOLLAR(1234.5)
    let result = dollar_text(&format!("{:.2}", 1234.5_f64), false);
    assert!(result.contains("$"), "DOLLAR should include $: got {}", result);
    // NUMBERVALUE("1.234,56", ",", ".")
    let (cleaned, percent) = numbervalue_cleaned("1.234,56", Some(","), Some("."));
    let result = match cleaned.parse::<f64>() {
        Ok(x) if !percent => format!("{}", x),
        _ => "#VALUE!".to_string(),
    };
    assert!(!result.contains("#"), "NUMBERVALUE should parse: got {}", result);
    // LENB("Hello")
    let result = shown(&m.fn_lenb("Hello"));
    assert_eq!(result, "5", "LENB should return 5: got {}", result);
}
