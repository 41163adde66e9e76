use ironcalc_base::model::Model;
use ironcalc_base::number::Number;
use ironcalc_base::values::CalcResult;

fn num(x: i64) -> Number {
    Number::from_int(x)
}

fn shown(r: &CalcResult) -> String {
    match r {
        CalcResult::Text(s) => s.clone(),
        CalcResult::Number(x) => x.to_text(),
        CalcResult::Error(e) => e.text(),
        _ => String::new(),
    }
}

#[test]
fn asc_jis_dbcs() {
    let m = Model::new();
    assert_eq!(shown(&m.fn_asc("ＡＢ１\u{3000}x")), "AB1 x");
    assert_eq!(shown(&m.fn_jis("AB1 x")), "ＡＢ１\u{3000}ｘ");
    assert_eq!(shown(&m.fn_dbcs("a~")), "ａ～");
    assert_eq!(shown(&m.fn_asc(&shown(&m.fn_jis("Hello!")))), "Hello!");
}

#[test]
fn byte_counts_and_slices() {
    let m = Model::new();
    assert_eq!(shown(&m.fn_lenb("Hello")), "5");
    assert_eq!(shown(&m.fn_lenb("é€")), "5");
    assert_eq!(shown(&m.fn_leftb("abcdef", None)), "a");
    assert_eq!(shown(&m.fn_leftb("abcdef", Some(num(3)))), "abc");
    assert_eq!(shown(&m.fn_rightb("abcdef", Some(num(2)))), "ef");
    assert_eq!(shown(&m.fn_rightb("abcdef", Some(num(10)))), "abcdef");
    assert_eq!(shown(&m.fn_midb("abcdef", num(2), num(3))), "bcd");
    assert_eq!(shown(&m.fn_midb("abcdef", num(0), num(2))), "ab");
    assert_eq!(shown(&m.fn_replaceb("abcdef", num(2), num(3), "X")), "aXef");
}

#[test]
fn findb_and_searchb_count_bytes() {
    let m = Model::new();
    assert_eq!(shown(&m.fn_findb("b", "abab", None)), "2");
    assert_eq!(shown(&m.fn_findb("b", "abab", Some(num(3)))), "4");
    assert_eq!(shown(&m.fn_findb("x", "abab", None)), "#VALUE!");
    assert_eq!(shown(&m.fn_findb("b", "éb", None)), "3");
    assert_eq!(shown(&m.fn_findb("", "ab", Some(num(9)))), "9");
    assert_eq!(shown(&m.fn_searchb("B", "abab", None)), "2");
    assert!(m.searchb_checked("b", "éb", Some(num(2))).is_none());
    let r = m.searchb_checked("B", "éb", Some(num(3))).unwrap();
    assert_eq!(shown(&r), "3");
}

#[test]
fn bahttext_is_a_fixed_text() {
    let m = Model::new();
    assert_eq!(shown(&m.fn_bahttext()), "BAHTTEXT not implemented");
}
