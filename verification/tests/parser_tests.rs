use rki_nowcast::numbers::{canonical_float_text, is_float_text_exec, parse_u32_text, u32_to_string};
use rki_nowcast::parser::parse;

const HEADER: &str = "Datum;Sch\u{e4}tzer_Neuerkrankungen;UG_PI_Neuerkrankungen;OG_PI_Neuerkrankungen;Sch\u{e4}tzer_Neuerkrankungen_ma4;UG_PI_Neuerkrankungen_ma4;OG_PI_Neuerkrankungen_ma4;Sch\u{e4}tzer_Reproduktionszahl_R;UG_PI_Reproduktionszahl_R;OG_PI_Reproduktionszahl_R;Sch\u{e4}tzer_7_Tage_R_Wert;UG_PI_7_Tage_R_Wert;OG_PI_7_Tage_R_Wert";

fn data_row(date: &str, nc: u32, rv: &str) -> String {
    format!(
        "{};{};{};{};{};{};{};{};{};{};{};{};{}",
        date,
        nc,
        nc - 1,
        nc + 1,
        nc,
        nc - 1,
        nc + 1,
        rv,
        rv,
        rv,
        rv,
        rv,
        rv
    )
}

#[test]
fn comma_decimals_equal_period_normalized_values() {
    let text = format!("{}\n{}", HEADER, data_row("2020-03-01", 120, "1,23"));
    let records = parse(&text);
    assert_eq!(records.len(), 1);
    assert_eq!(records[0].date, "2020-03-01");
    assert_eq!(records[0].new_cases, 120);
    assert_eq!(records[0].r_value, "1.23");
    assert_eq!(records[0].r_value_avg_upper, "1.23");
    assert_eq!(records[0].new_cases_lower, 119);
    assert_eq!(records[0].new_cases_upper, 121);
}

#[test]
fn one_valid_row_yields_one_record() {
    let text = format!("{}\n{}", HEADER, data_row("2020-03-01", 120, "0,95"));
    let records = parse(&text);
    assert_eq!(records.len(), 1);
}

#[test]
fn bad_integer_row_is_dropped_not_an_error() {
    let good = data_row("2020-03-01", 120, "0,95");
    let bad = good.replace("2020-03-01;120", "2020-03-02;abc");
    let text = format!("{}\n{}\n{}", HEADER, good, bad);
    let records = parse(&text);
    assert_eq!(records.len(), 1);
    assert_eq!(records[0].date, "2020-03-01");
}

#[test]
fn header_only_yields_empty_sequence() {
    let records = parse(HEADER);
    assert_eq!(records.len(), 0);
    let with_newline = format!("{}\n", HEADER);
    assert_eq!(parse(&with_newline).len(), 0);
}

#[test]
fn crlf_line_endings_are_accepted() {
    let text = format!("{}\r\n{}\r\n", HEADER, data_row("2020-03-01", 42, "1,05"));
    let records = parse(&text);
    assert_eq!(records.len(), 1);
    assert_eq!(records[0].new_cases, 42);
    assert_eq!(records[0].r_value, "1.05");
}

#[test]
fn fields_are_mapped_by_header_name_not_position() {
    let header = "Sch\u{e4}tzer_Neuerkrankungen;Datum;UG_PI_Neuerkrankungen;OG_PI_Neuerkrankungen;Sch\u{e4}tzer_Neuerkrankungen_ma4;UG_PI_Neuerkrankungen_ma4;OG_PI_Neuerkrankungen_ma4;Sch\u{e4}tzer_Reproduktionszahl_R;UG_PI_Reproduktionszahl_R;OG_PI_Reproduktionszahl_R;Sch\u{e4}tzer_7_Tage_R_Wert;UG_PI_7_Tage_R_Wert;OG_PI_7_Tage_R_Wert";
    let row = "77;2020-04-01;70;80;75;71;79;1,10;1,00;1,20;1,08;0,99;1,18";
    let text = format!("{}\n{}", header, row);
    let records = parse(&text);
    assert_eq!(records.len(), 1);
    assert_eq!(records[0].date, "2020-04-01");
    assert_eq!(records[0].new_cases, 77);
}

#[test]
fn missing_required_column_drops_every_row() {
    let header = HEADER.replace("Datum", "Tag");
    let text = format!("{}\n{}", header, data_row("2020-03-01", 120, "1,00"));
    assert_eq!(parse(&text).len(), 0);
}

#[test]
fn short_row_is_dropped() {
    let text = format!("{}\n2020-03-01;120;119", HEADER);
    assert_eq!(parse(&text).len(), 0);
}

#[test]
fn unmapped_extra_columns_are_ignored() {
    let header = format!("{};Bemerkung", HEADER);
    let row = format!("{};frei", data_row("2020-03-05", 9, "0,80"));
    let text = format!("{}\n{}", header, row);
    let records = parse(&text);
    assert_eq!(records.len(), 1);
    assert_eq!(records[0].new_cases, 9);
}

#[test]
fn integer_reading_accepts_exactly_plain_u32_texts() {
    assert_eq!(parse_u32_text("0"), Some(0));
    assert_eq!(parse_u32_text("120"), Some(120));
    assert_eq!(parse_u32_text("+7"), Some(7));
    assert_eq!(parse_u32_text("4294967295"), Some(4294967295));
    assert_eq!(parse_u32_text("4294967296"), None);
    assert_eq!(parse_u32_text("99999999999999999999"), None);
    assert_eq!(parse_u32_text(""), None);
    assert_eq!(parse_u32_text("+"), None);
    assert_eq!(parse_u32_text("12a"), None);
    assert_eq!(parse_u32_text("-3"), None);
    assert_eq!(parse_u32_text("1.0"), None);
}

#[test]
fn float_grammar_accepts_and_rejects() {
    assert!(is_float_text_exec("1.23"));
    assert!(is_float_text_exec("-0.5"));
    assert!(is_float_text_exec("+2"));
    assert!(is_float_text_exec(".5"));
    assert!(is_float_text_exec("5."));
    assert!(is_float_text_exec("1e5"));
    assert!(is_float_text_exec("1.2e-3"));
    assert!(is_float_text_exec("3E+10"));
    assert!(!is_float_text_exec(""));
    assert!(!is_float_text_exec("."));
    assert!(!is_float_text_exec("e5"));
    assert!(!is_float_text_exec("1,2"));
    assert!(!is_float_text_exec("abc"));
    assert!(!is_float_text_exec("1.2e"));
    assert!(!is_float_text_exec("1.2x"));
}

#[test]
fn float_grammar_accepts_special_spellings() {
    assert!(is_float_text_exec("inf"));
    assert!(is_float_text_exec("INF"));
    assert!(is_float_text_exec("-inf"));
    assert!(is_float_text_exec("+Infinity"));
    assert!(is_float_text_exec("infinity"));
    assert!(is_float_text_exec("nan"));
    assert!(is_float_text_exec("NaN"));
    assert!(!is_float_text_exec("in"));
    assert!(!is_float_text_exec("infinit"));
    assert!(!is_float_text_exec("nano"));
    assert!(!is_float_text_exec("- inf"));
}

#[test]
fn special_float_row_is_kept() {
    let text = format!("{}\n{}", HEADER, data_row("2020-03-01", 5, "NaN"));
    let records = parse(&text);
    assert_eq!(records.len(), 1);
    assert_eq!(records[0].r_value, "NaN");
}

#[test]
fn canonical_form_matches_float_display() {
    assert_eq!(canonical_float_text("1.20"), "1.2");
    assert_eq!(canonical_float_text("0.95"), "0.95");
    assert_eq!(canonical_float_text("+2.50"), "2.5");
    assert_eq!(canonical_float_text("-0.00"), "-0");
    assert_eq!(canonical_float_text(".5"), "0.5");
    assert_eq!(canonical_float_text("5."), "5");
    assert_eq!(canonical_float_text("007"), "7");
    assert_eq!(canonical_float_text("10.00"), "10");
    assert_eq!(canonical_float_text("100"), "100");
    assert_eq!(canonical_float_text("abc"), "abc");
}

#[test]
fn canonical_form_expands_exponents() {
    assert_eq!(canonical_float_text("1e3"), "1000");
    assert_eq!(canonical_float_text("1e5"), "100000");
    assert_eq!(canonical_float_text("1.5e2"), "150");
    assert_eq!(canonical_float_text("12.34e1"), "123.4");
    assert_eq!(canonical_float_text("1.23E+2"), "123");
    assert_eq!(canonical_float_text("2e-3"), "0.002");
    assert_eq!(canonical_float_text("15e-3"), "0.015");
    assert_eq!(canonical_float_text("150e-1"), "15");
    assert_eq!(canonical_float_text("-1.5e1"), "-15");
    assert_eq!(canonical_float_text("0.5e1"), "5");
    assert_eq!(canonical_float_text(".5e-1"), "0.05");
    assert_eq!(canonical_float_text("1e0"), "1");
    // An exponent past a float's decimal range is left as written.
    assert_eq!(canonical_float_text("1e40"), "1e40");
    assert_eq!(canonical_float_text("1e-40"), "1e-40");
    // Special spellings are left as written.
    assert_eq!(canonical_float_text("inf"), "inf");
    assert_eq!(canonical_float_text("NaN"), "NaN");
}

#[test]
fn integer_rendering_gives_exact_decimal_text() {
    assert_eq!(u32_to_string(0), "0");
    assert_eq!(u32_to_string(7), "7");
    assert_eq!(u32_to_string(120), "120");
    assert_eq!(u32_to_string(4294967295), "4294967295");
}
