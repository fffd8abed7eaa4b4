use effect_pipeline::pipeline::{Effect, Pipeline, PipelineError, RenderStep};
use effect_pipeline::raster::{apply_brightness, Image};
use effect_pipeline::watermark::WatermarkParams;

fn to_buf(img: &Image) -> image::RgbaImage {
    image::RgbaImage::from_raw(img.width, img.height, img.data.clone()).unwrap()
}

fn from_buf(buf: image::RgbaImage) -> Image {
    let (w, h) = buf.dimensions();
    Image::from_raw(w, h, buf.into_raw()).unwrap()
}

/// Runs one full render pass the way a host drives the pipeline: replay
/// the decided steps on a copy of the source, then hand the frame back.
fn run_render(p: &mut Pipeline) -> Vec<u8> {
    let mut img = p.begin_render();
    for step in p.render_plan() {
        match step {
            RenderStep::Blur { sigma_milli } => {
                let buf = image::imageops::blur(&to_buf(&img), sigma_milli as f32 / 1000.0);
                img = from_buf(buf);
            }
            RenderStep::Brighten { delta } => {
                img = apply_brightness(&img, delta.min(i32::MAX - 255));
            }
            RenderStep::Contrast { factor_milli } => {
                let buf = image::imageops::contrast(&to_buf(&img), factor_milli as f32 / 1000.0);
                img = from_buf(buf);
            }
            RenderStep::Watermark { params: _ } => {
                // These tests run without a font, so the watermark pass
                // degrades to its no-op.
            }
        }
    }
    let bytes = img.data.clone();
    p.complete_render(img);
    bytes
}

fn step_tag(s: &RenderStep) -> String {
    match s {
        RenderStep::Blur { sigma_milli } => format!("blur:{}", sigma_milli),
        RenderStep::Brighten { delta } => format!("brighten:{}", delta),
        RenderStep::Contrast { factor_milli } => format!("contrast:{}", factor_milli),
        RenderStep::Watermark { params } => format!("watermark:{}", params.text),
    }
}

fn plan_tags(p: &Pipeline) -> Vec<String> {
    p.render_plan().iter().map(step_tag).collect()
}

#[test]
fn append_increments_count_and_ids_grow() {
    let mut p = Pipeline::new(Image::gradient(8, 8));
    assert_eq!(p.len(), 0);
    p.append(Effect::Blur { sigma_milli: 2000 });
    assert_eq!(p.len(), 1);
    p.append(Effect::Brightness { delta: 10 });
    assert_eq!(p.len(), 2);
    p.append(Effect::Contrast { factor_milli: 1200 });
    assert_eq!(p.len(), 3);
    assert_eq!(p.get(0).id, 0);
    assert_eq!(p.get(1).id, 1);
    assert_eq!(p.get(2).id, 2);
    // Identities are never reused, even after a removal.
    p.remove_by_id(2).unwrap();
    p.append(Effect::Brightness { delta: -5 });
    assert_eq!(p.get(2).id, 3);
}

#[test]
fn append_marks_dirty() {
    let mut p = Pipeline::new(Image::gradient(4, 4));
    run_render(&mut p);
    assert!(!p.is_dirty());
    p.append(Effect::Brightness { delta: 1 });
    assert!(p.is_dirty());
}

#[test]
fn remove_missing_id_fails_loudly_and_changes_nothing() {
    let mut p = Pipeline::new(Image::gradient(4, 4));
    p.append(Effect::Brightness { delta: 10 });
    let r = p.remove_by_id(42);
    assert_eq!(r, Err(PipelineError::OperationNotFound));
    assert_eq!(p.len(), 1);
    assert_eq!(p.get(0).id, 0);
}

#[test]
fn remove_then_render_as_if_never_appended() {
    let mut p = Pipeline::new(Image::gradient(32, 32));
    p.append(Effect::Brightness { delta: 10 });
    let before_plan = plan_tags(&p);
    let before_bytes = run_render(&mut p);
    p.append(Effect::Contrast { factor_milli: 1500 });
    let appended_id = p.get(1).id;
    p.remove_by_id(appended_id).unwrap();
    assert_eq!(plan_tags(&p), before_plan);
    assert_eq!(run_render(&mut p), before_bytes);
}

#[test]
fn zero_blur_contributes_no_step() {
    let mut p = Pipeline::new(Image::gradient(4, 4));
    p.append(Effect::Blur { sigma_milli: 0 });
    p.append(Effect::Blur { sigma_milli: -5000 });
    assert_eq!(p.render_plan().len(), 0);
    p.append(Effect::Blur { sigma_milli: 2000 });
    assert_eq!(plan_tags(&p), vec!["blur:2000".to_string()]);
}

#[test]
fn zero_blur_leaves_image_byte_identical() {
    let mut with = Pipeline::new(Image::gradient(32, 32));
    with.append(Effect::Brightness { delta: 7 });
    with.append(Effect::Blur { sigma_milli: 0 });
    let mut without = Pipeline::new(Image::gradient(32, 32));
    without.append(Effect::Brightness { delta: 7 });
    assert_eq!(run_render(&mut with), run_render(&mut without));
}

#[test]
fn render_is_deterministic() {
    let mut p = Pipeline::new(Image::gradient(64, 64));
    p.append(Effect::Brightness { delta: 10 });
    p.append(Effect::Contrast { factor_milli: 1200 });
    p.append(Effect::Blur { sigma_milli: 1500 });
    let first = run_render(&mut p);
    let second = run_render(&mut p);
    assert_eq!(first, second);
}

#[test]
fn render_does_not_touch_source() {
    let mut p = Pipeline::new(Image::gradient(16, 16));
    let source_before = p.source_image().data.clone();
    p.append(Effect::Brightness { delta: 60 });
    run_render(&mut p);
    assert_eq!(p.source_image().data, source_before);
}

#[test]
fn plan_preserves_operation_order() {
    let mut p = Pipeline::new(Image::gradient(4, 4));
    p.append(Effect::Brightness { delta: 10 });
    p.append(Effect::Contrast { factor_milli: 1200 });
    assert_eq!(
        plan_tags(&p),
        vec!["brighten:10".to_string(), "contrast:1200".to_string()]
    );
}

#[test]
fn move_operation_reorders_stack() {
    let mut p = Pipeline::new(Image::gradient(4, 4));
    p.append(Effect::Blur { sigma_milli: 1000 });
    p.append(Effect::Brightness { delta: 1 });
    p.append(Effect::Contrast { factor_milli: 900 });
    p.move_operation(0, 2);
    assert_eq!(p.get(0).id, 1);
    assert_eq!(p.get(1).id, 2);
    assert_eq!(p.get(2).id, 0);
    assert!(p.is_dirty());
}

#[test]
fn same_order_same_output_swapped_order_differs() {
    // Reordering changes the output only through order-sensitive pairs;
    // brightening and contrast are order-sensitive on a gradient.
    let mut ab = Pipeline::new(Image::gradient(64, 64));
    ab.append(Effect::Brightness { delta: 10 });
    ab.append(Effect::Contrast { factor_milli: 1200 });
    let mut ab_again = Pipeline::new(Image::gradient(64, 64));
    ab_again.append(Effect::Brightness { delta: 10 });
    ab_again.append(Effect::Contrast { factor_milli: 1200 });
    assert_eq!(run_render(&mut ab), run_render(&mut ab_again));
    let mut ba = Pipeline::new(Image::gradient(64, 64));
    ba.append(Effect::Contrast { factor_milli: 1200 });
    ba.append(Effect::Brightness { delta: 10 });
    assert_ne!(run_render(&mut ab), run_render(&mut ba));
}

#[test]
fn set_effect_keeps_identity_and_marks_dirty() {
    let mut p = Pipeline::new(Image::gradient(4, 4));
    p.append(Effect::Blur { sigma_milli: 1000 });
    run_render(&mut p);
    p.set_effect(0, Effect::Brightness { delta: 3 });
    assert_eq!(p.get(0).id, 0);
    assert!(p.is_dirty());
    assert_eq!(plan_tags(&p), vec!["brighten:3".to_string()]);
}

#[test]
fn watermark_effect_carries_its_parameters() {
    let mut p = Pipeline::new(Image::gradient(4, 4));
    p.append(Effect::Watermark { params: WatermarkParams::default() });
    let plan = p.render_plan();
    assert_eq!(plan.len(), 1);
    match &plan[0] {
        RenderStep::Watermark { params } => {
            assert_eq!(params.text, "My Watermark\nMultiline");
            assert_eq!(params.degree_milli, -45000);
        }
        _ => panic!("expected a watermark step"),
    }
}

#[test]
fn cached_result_follows_render() {
    let mut p = Pipeline::new(Image::gradient(8, 8));
    p.append(Effect::Brightness { delta: 25 });
    let bytes = run_render(&mut p);
    assert!(!p.is_dirty());
    let cached = p.cached_result().unwrap();
    assert_eq!(cached.data, bytes);
}

#[test]
fn end_to_end_brightness_then_contrast_on_gradient() {
    // A 512-by-512 gradient through Brightness +10 then Contrast 1.2
    // equals brightening then contrast-adjusting the gradient directly,
    // in that exact order.
    let source = Image::gradient(512, 512);
    let mut p = Pipeline::new(Image::gradient(512, 512));
    p.append(Effect::Brightness { delta: 10 });
    p.append(Effect::Contrast { factor_milli: 1200 });
    let rendered = run_render(&mut p);

    let direct = image::imageops::contrast(
        &image::imageops::brighten(&to_buf(&source), 10),
        1.2,
    )
    .into_raw();
    assert_eq!(rendered, direct);

    let swapped = image::imageops::brighten(
        &image::imageops::contrast(&to_buf(&source), 1.2),
        10,
    )
    .into_raw();
    assert_ne!(rendered, swapped);
}
