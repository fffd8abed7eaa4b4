use effect_pipeline::layout::{
    chars_of, measure_block, measure_line, split_lines, FontMetrics, METRIC_BOUND,
};

fn cs(s: &str) -> Vec<char> {
    s.chars().collect()
}

fn metrics() -> FontMetrics {
    FontMetrics::new(
        vec![('A' as u32, 10000), ('V' as u32, 9000), (' ' as u32, 4000)],
        vec![('A' as u32, 'V' as u32, -1500)],
        12000,
    )
}

#[test]
fn empty_line_measures_zero() {
    let m = metrics();
    assert_eq!(measure_line(&m, &[]), 0);
}

#[test]
fn line_width_sums_advances() {
    let m = metrics();
    assert_eq!(measure_line(&m, &cs("A")), 10000);
    assert_eq!(measure_line(&m, &cs("A A")), 24000);
}

#[test]
fn kerning_applies_between_adjacent_glyphs() {
    let m = metrics();
    // A then V kern by -1500; V then A carry no adjustment.
    assert_eq!(measure_line(&m, &cs("AV")), 10000 - 1500 + 9000);
    assert_eq!(measure_line(&m, &cs("AVA")), 10000 - 1500 + 9000 + 10000);
    assert_eq!(measure_line(&m, &cs("VA")), 19000);
}

#[test]
fn missing_glyphs_measure_zero() {
    let m = metrics();
    assert_eq!(measure_line(&m, &cs("zzz")), 0);
}

#[test]
fn block_height_is_line_count_times_line_height() {
    let m = metrics();
    let (_, h1) = measure_block(&m, &cs("AV"));
    assert_eq!(h1, 12000);
    let (_, h3) = measure_block(&m, &cs("A\n\nAV"));
    assert_eq!(h3, 3 * 12000);
    let (_, hempty) = measure_block(&m, &cs(""));
    assert_eq!(hempty, 12000);
    let (_, hbreaks) = measure_block(&m, &cs("\n\n"));
    assert_eq!(hbreaks, 3 * 12000);
}

#[test]
fn block_width_is_widest_line() {
    let m = metrics();
    let (w, _) = measure_block(&m, &cs("A\n\nAV"));
    assert_eq!(w, 17500);
    let (w_empty, _) = measure_block(&m, &cs(""));
    assert_eq!(w_empty, 0);
}

#[test]
fn split_keeps_empty_lines_and_trailing_break() {
    let lines = split_lines(&cs("a\n\nb"));
    assert_eq!(lines.len(), 3);
    assert_eq!(lines[0], cs("a"));
    assert_eq!(lines[1], cs(""));
    assert_eq!(lines[2], cs("b"));
    let trailing = split_lines(&cs("a\n"));
    assert_eq!(trailing.len(), 2);
    assert_eq!(trailing[0], cs("a"));
    assert_eq!(trailing[1], cs(""));
    let empty = split_lines(&cs(""));
    assert_eq!(empty.len(), 1);
    assert_eq!(empty[0], cs(""));
}

#[test]
fn chars_of_roundtrips_unicode() {
    assert_eq!(chars_of("héllo\nwörld"), cs("héllo\nwörld"));
    assert_eq!(chars_of(""), Vec::<char>::new());
}

#[test]
fn metrics_construction_clamps() {
    let m = FontMetrics::new(
        vec![('A' as u32, -5), ('B' as u32, 10 * METRIC_BOUND)],
        vec![('A' as u32, 'B' as u32, -10 * METRIC_BOUND)],
        -3,
    );
    assert_eq!(m.advances[0].1, 0);
    assert_eq!(m.advances[1].1, METRIC_BOUND);
    assert_eq!(m.kerning[0].2, -METRIC_BOUND);
    assert_eq!(m.line_height, 0);
}
