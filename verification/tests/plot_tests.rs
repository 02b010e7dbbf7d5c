use rki_nowcast::plot::plot;

fn series(values: &[&str]) -> Vec<String> {
    values.iter().map(|v| v.to_string()).collect()
}

#[test]
fn plot_is_deterministic() {
    let values = series(&["1.0", "2.0", "3.0", "2.0", "1.0"]);
    let again = series(&["1.0", "2.0", "3.0", "2.0", "1.0"]);
    let first = plot(&values, "same caption");
    let second = plot(&again, "same caption");
    assert_eq!(first, second);
}

#[test]
fn plot_output_holds_the_caption() {
    let values = series(&["1.0", "2.0", "3.0", "2.0", "1.0"]);
    let out = plot(&values, "test");
    assert!(!out.is_empty());
    assert!(out.contains("test"));
}

#[test]
fn plot_renders_a_chart_not_its_input() {
    let values = series(&["1.0", "2.0", "3.0", "2.0", "1.0"]);
    let out = plot(&values, "test");
    assert_ne!(out, "test");
    assert!(out.len() > "test".len());
    assert!(out.contains('\n'));
}

#[test]
fn plot_on_one_value_does_not_crash() {
    let values = series(&["3.5"]);
    let out = plot(&values, "single");
    assert!(out.contains("single"));
}

#[test]
fn plot_on_empty_series_yields_the_caption() {
    let values: Vec<String> = Vec::new();
    let out = plot(&values, "nothing to plot");
    assert_eq!(out, "nothing to plot");
}

#[test]
fn plot_output_ends_with_the_caption() {
    let values = series(&["1.0", "2.0", "3.0"]);
    let out = plot(&values, "at the end");
    assert!(out.ends_with("at the end"));
}

#[test]
fn plot_falls_back_on_values_beyond_the_renderer_range() {
    // Values past 2^31 would saturate the renderer's row bounds.
    let huge = series(&["2147483648", "2147483658"]);
    assert_eq!(plot(&huge, "too large"), "too large");
    // Values spaced more finely than the safe grid would explode the scale.
    let fine = series(&["1.0", "1.000000001"]);
    assert_eq!(plot(&fine, "too fine"), "too fine");
    // A special spelling is not a plain decimal either.
    let special = series(&["inf", "1.0"]);
    assert_eq!(plot(&special, "not finite"), "not finite");
}

#[test]
fn plot_renders_values_within_the_safe_range() {
    let wide = series(&["0", "9999999", "123456"]);
    let out = plot(&wide, "wide but safe");
    assert_ne!(out, "wide but safe");
    assert!(out.contains('\n'));
    let precise = series(&["0.123456", "9.999999"]);
    let out2 = plot(&precise, "precise but safe");
    assert_ne!(out2, "precise but safe");
}
