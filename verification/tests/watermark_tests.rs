use effect_pipeline::layout::FontMetrics;
use effect_pipeline::raster::{Image, Rgba};
use effect_pipeline::watermark::{draw_rule, watermark_plan, WatermarkParams};

fn cs(s: &str) -> Vec<char> {
    s.chars().collect()
}

fn metrics() -> FontMetrics {
    FontMetrics::new(
        vec![('A' as u32, 10000), ('V' as u32, 9000)],
        vec![('A' as u32, 'V' as u32, -1500)],
        12000,
    )
}

fn params(text: &str, degree_milli: i64, offset_x: i32, offset_y: i32) -> WatermarkParams {
    WatermarkParams {
        text: text.to_string(),
        color: Rgba { r: 10, g: 20, b: 30, a: 200 },
        offset_x,
        offset_y,
        scale_milli: 24000,
        degree_milli,
    }
}

#[test]
fn default_params_match_stock_watermark() {
    let p = WatermarkParams::default();
    assert_eq!(p.text, "My Watermark\nMultiline");
    assert_eq!((p.color.r, p.color.g, p.color.b, p.color.a), (0, 0, 0, 255));
    assert_eq!((p.offset_x, p.offset_y), (-190, -190));
    assert_eq!(p.scale_milli, 24000);
    assert_eq!(p.degree_milli, -45000);
}

#[test]
fn no_metrics_means_no_plan() {
    // The no-op failure policy: without usable metrics there is nothing
    // to draw, so the executing side leaves the frame byte-identical.
    let p = params("AV", 0, 0, 0);
    let plan = watermark_plan(64, 64, &p, None);
    assert!(plan.is_none());
}

#[test]
fn degenerate_metrics_collapse_the_block() {
    // A non-positive font size clamps every metric to zero: the layout
    // degrades to empty geometry instead of failing.
    let m = FontMetrics::new(vec![('A' as u32, -10)], vec![], -24000);
    let p = params("A\nA", 0, 0, 0);
    let plan = watermark_plan(64, 64, &p, Some(&m)).unwrap();
    assert_eq!(plan.rule_y, 32);
    assert_eq!(plan.rule2_y, 32);
    assert_eq!(plan.lines.len(), 2);
    assert_eq!((plan.lines[0].x, plan.lines[0].y), (32, 32));
    assert_eq!((plan.lines[1].x, plan.lines[1].y), (32, 32));
}

#[test]
fn malformed_font_bytes_are_rejected_by_backend() {
    // The font loader refuses garbage, so no metrics can be built from it
    // and the watermark pass degrades to the no-op above.
    let res = ab_glyph::FontVec::try_from_vec(vec![1, 2, 3, 4]);
    assert!(res.is_err());
}

#[test]
fn unrotated_centered_plan() {
    let m = metrics();
    let p = params("AV\nA", 0, 0, 0);
    let plan = watermark_plan(100, 80, &p, Some(&m)).unwrap();
    assert!(!plan.rotate);
    assert_eq!(plan.degree_milli, 0);
    assert_eq!((plan.offset_x, plan.offset_y), (0, 0));
    assert_eq!((plan.width, plan.height), (100, 80));
    // The top rule sits on the horizontal axis, the bottom one right
    // under the two-line block.
    assert_eq!(plan.rule_y, 40);
    assert_eq!(plan.rule2_y, 40 + 24);
    assert_eq!(plan.lines.len(), 2);
    // "AV" is 17500 milli = 17 px wide: centered on x = 50.
    assert_eq!(plan.lines[0].text, cs("AV"));
    assert_eq!(plan.lines[0].x, 50 - 17 / 2);
    assert_eq!(plan.lines[0].y, 40);
    // "A" is 10 px wide; the second line sits one line height lower.
    assert_eq!(plan.lines[1].text, cs("A"));
    assert_eq!(plan.lines[1].x, 50 - 5);
    assert_eq!(plan.lines[1].y, 52);
}

#[test]
fn rotation_flag_follows_degree() {
    let m = metrics();
    let p = params("A", -45000, 3, -7);
    let plan = watermark_plan(64, 64, &p, Some(&m)).unwrap();
    assert!(plan.rotate);
    assert_eq!(plan.degree_milli, -45000);
    assert_eq!((plan.offset_x, plan.offset_y), (3, -7));
}

#[test]
fn plan_carries_color() {
    let m = metrics();
    let p = params("A", 1000, 0, 0);
    let plan = watermark_plan(32, 32, &p, Some(&m)).unwrap();
    assert_eq!((plan.color.r, plan.color.g, plan.color.b, plan.color.a), (10, 20, 30, 200));
}

#[test]
fn empty_text_still_has_one_line() {
    let m = metrics();
    let p = params("", 0, 0, 0);
    let plan = watermark_plan(64, 64, &p, Some(&m)).unwrap();
    assert_eq!(plan.lines.len(), 1);
    assert_eq!(plan.lines[0].text, Vec::<char>::new());
    assert_eq!(plan.rule2_y, 32 + 12);
}

#[test]
fn params_duplicate_is_structural() {
    let p = WatermarkParams::default();
    let q = p.duplicate();
    assert_eq!(q.text, p.text);
    assert_eq!((q.offset_x, q.offset_y), (p.offset_x, p.offset_y));
    assert_eq!(q.scale_milli, p.scale_milli);
    assert_eq!(q.degree_milli, p.degree_milli);
}

#[test]
fn rule_spans_full_width_two_rows_and_clips() {
    let c = Rgba { r: 5, g: 6, b: 7, a: 255 };
    let mut layer = Image::new(6, 5);
    draw_rule(&mut layer, 3, c);
    for y in 0..5u32 {
        for x in 0..6u32 {
            let got = layer.get_pixel(x, y);
            if y == 3 || y == 4 {
                assert_eq!((got.r, got.g, got.b, got.a), (5, 6, 7, 255));
            } else {
                assert_eq!((got.r, got.g, got.b, got.a), (0, 0, 0, 0));
            }
        }
    }
    // A rule whose second row falls off the bottom keeps only its first.
    let mut edge = Image::new(2, 5);
    draw_rule(&mut edge, 4, c);
    assert_eq!(edge.get_pixel(0, 4).r, 5);
    assert_eq!(edge.get_pixel(0, 3).r, 0);
}
