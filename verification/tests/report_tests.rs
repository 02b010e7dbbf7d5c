use rki_nowcast::numbers::u32_to_string;
use rki_nowcast::parser::parse;
use rki_nowcast::plot::plot;
use rki_nowcast::records::DataRecord;
use rki_nowcast::report::{build_figures, get_statistics, select_recent};

fn record(date: &str, nc: u32, rv: &str) -> DataRecord {
    DataRecord {
        date: date.to_string(),
        new_cases: nc,
        new_cases_lower: nc,
        new_cases_upper: nc,
        new_cases_avg: nc,
        new_cases_avg_lower: nc,
        new_cases_avg_upper: nc,
        r_value: rv.to_string(),
        r_value_lower: rv.to_string(),
        r_value_upper: rv.to_string(),
        r_value_avg: rv.to_string(),
        r_value_avg_lower: rv.to_string(),
        r_value_avg_upper: rv.to_string(),
    }
}

fn five_records() -> Vec<DataRecord> {
    vec![
        record("2020-03-01", 10, "0.90"),
        record("2020-03-02", 20, "0.95"),
        record("2020-03-03", 30, "1.00"),
        record("2020-03-04", 40, "1.05"),
        record("2020-03-05", 50, "1.10"),
    ]
}

#[test]
fn selection_takes_the_tail_in_order() {
    let data = five_records();
    let selected = select_recent(&data, 3);
    assert_eq!(selected.len(), 3);
    assert_eq!(selected[0].date, "2020-03-03");
    assert_eq!(selected[1].date, "2020-03-04");
    assert_eq!(selected[2].date, "2020-03-05");
}

#[test]
fn selection_with_zero_limit_is_empty() {
    let data = five_records();
    assert_eq!(select_recent(&data, 0).len(), 0);
}

#[test]
fn selection_with_large_limit_takes_everything() {
    let data = five_records();
    let selected = select_recent(&data, 10);
    assert_eq!(selected.len(), 5);
    assert_eq!(selected[0].date, "2020-03-01");
    assert_eq!(selected[4].date, "2020-03-05");
}

#[test]
fn statistics_table_holds_header_and_selected_rows() {
    let data = five_records();
    let table = get_statistics(&data, 2);
    let text = table.to_string();
    assert!(text.contains("Date"));
    assert!(text.contains("New cases"));
    assert!(text.contains("R-Value"));
    assert!(text.contains("2020-03-04"));
    assert!(text.contains("2020-03-05"));
    assert!(text.contains("40"));
    assert!(text.contains("50"));
    assert!(text.contains("1.05"));
    // "1.10" is rendered in its canonical form, as a float would print.
    assert!(text.contains("1.1"));
    assert!(!text.contains("1.10"));
    assert!(!text.contains("2020-03-03"));
    assert!(!text.contains("2020-03-01"));
}

#[test]
fn row_with_a_newline_in_a_text_still_occupies_one_row() {
    let mut data = five_records();
    data[3].date = "2020-03-04\nsecond line".to_string();
    let table = get_statistics(&data, 2);
    // One row per selected record, plus the header.
    assert_eq!(table.len(), 3);
    let text = table.to_string();
    // The text is stored as a multi-line cell, both lines visible.
    assert!(text.contains("2020-03-04"));
    assert!(text.contains("second line"));
    assert!(text.contains("2020-03-05"));
}

#[test]
fn figures_fall_back_where_counts_exceed_the_renderer_range() {
    let data = vec![
        record("2020-03-01", 4294967295, "0.90"),
        record("2020-03-02", 10, "0.95"),
    ];
    let (fig_cases, fig_r) = build_figures(&data, 5);
    // Ten-digit counts are outside the safe plotting range.
    assert_eq!(fig_cases, "New infections in the last 5 days");
    // The reproduction numbers still plot.
    assert_ne!(fig_r, "R-value in the last 5 days");
}

#[test]
fn figures_on_empty_data_fall_back_to_captions() {
    let data: Vec<DataRecord> = Vec::new();
    let (fig_cases, fig_r) = build_figures(&data, 5);
    assert_eq!(fig_cases, "New infections in the last 5 days");
    assert_eq!(fig_r, "R-value in the last 5 days");
}

const HEADER: &str = "Datum;Sch\u{e4}tzer_Neuerkrankungen;UG_PI_Neuerkrankungen;OG_PI_Neuerkrankungen;Sch\u{e4}tzer_Neuerkrankungen_ma4;UG_PI_Neuerkrankungen_ma4;OG_PI_Neuerkrankungen_ma4;Sch\u{e4}tzer_Reproduktionszahl_R;UG_PI_Reproduktionszahl_R;OG_PI_Reproduktionszahl_R;Sch\u{e4}tzer_7_Tage_R_Wert;UG_PI_7_Tage_R_Wert;OG_PI_7_Tage_R_Wert";

#[test]
fn end_to_end_sample_report() {
    let dates = [
        "2020-03-01",
        "2020-03-02",
        "2020-03-03",
        "2020-03-04",
        "2020-03-05",
        "2020-03-06",
        "2020-03-07",
        "2020-03-08",
        "2020-03-09",
    ];
    let cases: [u32; 9] = [10, 12, 15, 20, 26, 33, 41, 50, 60];
    let r_values = [
        "0,90", "0,95", "1,00", "1,05", "1,10", "1,15", "1,20", "1,25", "1,30",
    ];
    let mut text = String::from(HEADER);
    for i in 0..9 {
        text.push_str(&format!(
            "\n{};{};{};{};{};{};{};{};{};{};{};{};{}",
            dates[i],
            cases[i],
            cases[i],
            cases[i],
            cases[i],
            cases[i],
            cases[i],
            r_values[i],
            r_values[i],
            r_values[i],
            r_values[i],
            r_values[i],
            r_values[i]
        ));
    }
    let records = parse(&text);
    assert_eq!(records.len(), 9);

    // The table holds exactly the last three rows, in original order.
    let table_text = get_statistics(&records, 3).to_string();
    for early in &dates[0..6] {
        assert!(!table_text.contains(early));
    }
    let i7 = table_text.find("2020-03-07").unwrap();
    let i8 = table_text.find("2020-03-08").unwrap();
    let i9 = table_text.find("2020-03-09").unwrap();
    assert!(i7 < i8 && i8 < i9);
    assert!(table_text.contains("41"));
    assert!(table_text.contains("50"));
    assert!(table_text.contains("60"));
    assert!(table_text.contains("1.2"));
    assert!(table_text.contains("1.25"));
    assert!(table_text.contains("1.3"));

    // Both figures are built from the last five rows' series.
    let (fig_cases, fig_r) = build_figures(&records, 5);
    let expected_cases: Vec<String> = cases[4..9].iter().map(|n| u32_to_string(*n)).collect();
    let expected_r: Vec<String> = r_values[4..9]
        .iter()
        .map(|v| v.replace(',', "."))
        .collect();
    assert_eq!(
        fig_cases,
        plot(&expected_cases, "New infections in the last 5 days")
    );
    assert_eq!(fig_r, plot(&expected_r, "R-value in the last 5 days"));
}
