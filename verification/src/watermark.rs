//! The watermark compositor's decision half: parameter values and the
//! fully computed draw plan — layer size, decorative rule rows, per-line
//! placements, rotation and compositing offset — all exact integer
//! geometry. Rasterizing glyphs and rotating the layer are left to the
//! imaging backend that executes the plan.
use vstd::prelude::*;

use crate::layout::FontMetrics;
use crate::layout::chars_of;
use crate::layout::lemma_line_width_bound;
use crate::layout::lemma_lines_nonempty;
use crate::layout::line_width;
use crate::layout::lines_of;
use crate::layout::measure_line;
use crate::layout::split_lines;
use crate::raster::Image;
use crate::raster::Rgba;
use crate::raster::channel;
use crate::raster::covers;
use crate::raster::pix;

verus! {

/// The value object behind a text watermark: the text, its color, the
/// signed pixel offset of the composited layer, the font pixel size and
/// the rotation angle. Fractional values are in thousandths.
pub struct WatermarkParams {
    pub text: String,
    pub color: Rgba,
    pub offset_x: i32,
    pub offset_y: i32,
    pub scale_milli: i64,
    pub degree_milli: i64,
}

/// The mathematical value of a `WatermarkParams`.
pub struct WatermarkParamsView {
    pub text: Seq<char>,
    pub color: Rgba,
    pub offset_x: int,
    pub offset_y: int,
    pub scale_milli: int,
    pub degree_milli: int,
}

impl View for WatermarkParams {
    type V = WatermarkParamsView;

    open spec fn view(&self) -> WatermarkParamsView {
        WatermarkParamsView {
            text: self.text@,
            color: self.color,
            offset_x: self.offset_x as int,
            offset_y: self.offset_y as int,
            scale_milli: self.scale_milli as int,
            degree_milli: self.degree_milli as int,
        }
    }
}

impl WatermarkParams {
    /// A structural copy: same text, color, offset, size and angle.
    pub fn duplicate(&self) -> (r: WatermarkParams)
        ensures
            r == *self,
    {
        WatermarkParams {
            text: self.text.clone(),
            color: self.color,
            offset_x: self.offset_x,
            offset_y: self.offset_y,
            scale_milli: self.scale_milli,
            degree_milli: self.degree_milli,
        }
    }
}

impl Default for WatermarkParams {
    /// The stock watermark: two lines of black text, pulled up and left
    /// of center, 24-pixel type rotated 45 degrees clockwise.
    fn default() -> (r: Self)
        ensures
            r.text@ == "My Watermark\nMultiline"@,
            r.color == (Rgba { r: 0, g: 0, b: 0, a: 255 }),
            r.offset_x == -190,
            r.offset_y == -190,
            r.scale_milli == 24000,
            r.degree_milli == -45000,
    {
        WatermarkParams {
            text: "My Watermark\nMultiline".to_owned(),
            color: Rgba { r: 0, g: 0, b: 0, a: 255 },
            offset_x: -190,
            offset_y: -190,
            scale_milli: 24000,
            degree_milli: -45000,
        }
    }
}

/// One text line of a draw plan: its characters and the top-left corner
/// it is drawn at.
pub struct LinePlacement {
    pub text: Vec<char>,
    pub x: i32,
    pub y: i32,
}

/// The mathematical value of a `LinePlacement`.
pub struct LinePlacementView {
    pub text: Seq<char>,
    pub x: int,
    pub y: int,
}

impl View for LinePlacement {
    type V = LinePlacementView;

    open spec fn view(&self) -> LinePlacementView {
        LinePlacementView { text: self.text@, x: self.x as int, y: self.y as int }
    }
}

/// A fully decided watermark rendering pass over a layer of the target
/// image's size: where the two decorative rules go, where each line of
/// text goes, and how the finished layer is rotated and composited.
pub struct WatermarkPlan {
    pub width: u32,
    pub height: u32,
    pub rule_y: i32,
    pub rule2_y: i32,
    pub lines: Vec<LinePlacement>,
    pub color: Rgba,
    pub degree_milli: i64,
    pub rotate: bool,
    pub offset_x: i64,
    pub offset_y: i64,
}

/// Saturates an integer into the 32-bit signed range.
pub open spec fn clamp_i32(v: int) -> int {
    if v < -2147483648 {
        -2147483648
    } else if v > 2147483647 {
        2147483647
    } else {
        v
    }
}

/// A measured width in whole pixels: negative (degenerate) widths count
/// as zero.
pub open spec fn px_of_width(wm: int) -> int {
    if wm < 0 {
        0
    } else {
        wm / 1000
    }
}

/// The height of `n` stacked lines, in whole pixels.
pub open spec fn block_height_px(m: FontMetrics, n: int) -> int {
    (n * m.line_height) / 1000
}

/// The drawn x of a line: its own measured width centers it on `cx`.
pub open spec fn line_x(m: FontMetrics, line: Seq<char>, cx: int) -> int {
    clamp_i32(cx - px_of_width(line_width(m, line)) / 2)
}

/// The drawn y of line `k`: lines stack downward from `cy` by the shared
/// line height.
pub open spec fn line_y(m: FontMetrics, cy: int, k: int) -> int {
    clamp_i32(cy + (k * m.line_height) / 1000)
}

/// What a correct plan for the given image size, parameters and metrics
/// holds: the layer matches the image, the top rule sits on the image's
/// horizontal axis, lines stack below it each centered by its own width,
/// the bottom rule sits right under the block, and the compositing pass
/// carries the parameters' color, angle and offset unchanged.
pub open spec fn plan_matches(
    plan: WatermarkPlan,
    width: u32,
    height: u32,
    p: WatermarkParamsView,
    m: FontMetrics,
) -> bool {
    let cx = width as int / 2;
    let cy = height as int / 2;
    let lines = lines_of(p.text);
    &&& plan.width == width
    &&& plan.height == height
    &&& plan.color == p.color
    &&& plan.degree_milli == p.degree_milli
    &&& plan.rotate == (p.degree_milli != 0)
    &&& plan.offset_x == p.offset_x
    &&& plan.offset_y == p.offset_y
    &&& plan.rule_y == cy
    &&& plan.rule2_y == clamp_i32(cy + block_height_px(m, lines.len() as int))
    &&& plan.lines@.len() == lines.len()
    &&& forall|k: int|
        0 <= k < lines.len() ==> {
            &&& (#[trigger] plan.lines@[k])@.text == lines[k]
            &&& plan.lines@[k]@.x == line_x(m, lines[k], cx)
            &&& plan.lines@[k]@.y == line_y(m, cy, k)
        }
}

/// Saturating conversion to `i32`.
fn clamp_to_i32(v: i128) -> (r: i32)
    ensures
        r as int == clamp_i32(v as int),
{
    if v < -2147483648 {
        -2147483648
    } else if v > 2147483647 {
        2147483647
    } else {
        v as i32
    }
}

/// An owned copy of a character slice.
fn copy_chars(v: &[char]) -> (r: Vec<char>)
    ensures
        r@ == v@,
{
    let n = v.len();
    let mut r: Vec<char> = Vec::new();
    let mut i: usize = 0;
    while i < n
        invariant
            i <= n,
            n == v@.len(),
            r@.len() == i,
            forall|j: int| 0 <= j < i ==> r@[j] == v@[j],
        decreases n - i,
    {
        r.push(v[i]);
        i = i + 1;
    }
    proof {
        assert(r@ =~= v@);
    }
    r
}

/// Lays out one watermark pass. With metrics in hand the plan is always
/// produced and is exactly `plan_matches`; without them — the font could
/// not be used — no plan is produced and the pass is a no-op, so a
/// malformed font leaves the image untouched.
pub fn watermark_plan(
    width: u32,
    height: u32,
    params: &WatermarkParams,
    metrics: Option<&FontMetrics>,
) -> (r: Option<WatermarkPlan>)
    requires
        match metrics {
            Some(m) => m.wf(),
            None => true,
        },
    ensures
        match metrics {
            None => r is None,
            Some(m) => match r {
                Some(plan) => plan_matches(plan, width, height, params@, *m),
                None => false,
            },
        },
{
    let m = match metrics {
        Some(m) => m,
        None => {
            return None;
        },
    };
    let cx: i32 = (width / 2) as i32;
    let cy: i32 = (height / 2) as i32;
    let text_chars = chars_of(params.text.as_str());
    let lines = split_lines(text_chars.as_slice());
    let ghost all = lines_of(params.text@);
    proof {
        assert(lines.deep_view() == all);
    }
    let k = lines.len();
    let mut placements: Vec<LinePlacement> = Vec::new();
    let mut i: usize = 0;
    while i < k
        invariant
            m.wf(),
            i <= k,
            k == lines@.len(),
            lines.deep_view() == all,
            all.len() == k,
            cx as int == width as int / 2,
            cy as int == height as int / 2,
            placements@.len() == i,
            forall|j: int|
                0 <= j < i ==> {
                    &&& (#[trigger] placements@[j])@.text == all[j]
                    &&& placements@[j]@.x == line_x(*m, all[j], width as int / 2)
                    &&& placements@[j]@.y == line_y(*m, height as int / 2, j)
                },
        decreases k - i,
    {
        proof {
            assert(lines.deep_view()[i as int] == lines@[i as int]@);
        }
        let w = measure_line(m, lines[i].as_slice());
        proof {
            lemma_line_width_bound(*m, all[i as int]);
        }
        let wpx: u128 = if w < 0 {
            0
        } else {
            (w as u128) / 1000
        };
        let x = clamp_to_i32(cx as i128 - ((wpx / 2) as i128));
        proof {
            assert(0 <= (i as int) * (m.line_height as int) <= (usize::MAX as int) * 1048576)
                by (nonlinear_arith)
                requires
                    0 <= i as int <= usize::MAX as int,
                    0 <= m.line_height as int <= 1048576,
            ;
        }
        let rise: u128 = ((i as u128) * (m.line_height as u128)) / 1000;
        let y = clamp_to_i32(cy as i128 + (rise as i128));
        let text = copy_chars(lines[i].as_slice());
        placements.push(LinePlacement { text, x, y });
        i = i + 1;
    }
    proof {
        assert(0 <= (k as int) * (m.line_height as int) <= (usize::MAX as int) * 1048576)
            by (nonlinear_arith)
            requires
                0 <= k as int <= usize::MAX as int,
                0 <= m.line_height as int <= 1048576,
        ;
    }
    let block: u128 = ((k as u128) * (m.line_height as u128)) / 1000;
    let rule2_y = clamp_to_i32(cy as i128 + (block as i128));
    Some(
        WatermarkPlan {
            width,
            height,
            rule_y: cy,
            rule2_y,
            lines: placements,
            color: params.color,
            degree_milli: params.degree_milli,
            rotate: params.degree_milli != 0,
            offset_x: params.offset_x as i64,
            offset_y: params.offset_y as i64,
        },
    )
}

/// With rotation angle zero and offset (0, 0), the finished layer is
/// composited unrotated and unshifted, so the layer's center lands
/// exactly on the image's geometric center. On that layer every text
/// line is centered on the image's vertical axis to within half a pixel
/// by its own measured width, and the text block hangs from the image's
/// horizontal axis, with the decorative rules at its top and bottom
/// edges. Inputs so large that a placement would saturate the 32-bit
/// coordinate range are excluded.
pub proof fn lemma_watermark_centering(
    plan: WatermarkPlan,
    width: u32,
    height: u32,
    p: WatermarkParamsView,
    m: FontMetrics,
)
    requires
        m.wf(),
        plan_matches(plan, width, height, p, m),
        p.degree_milli == 0,
        p.offset_x == 0,
        p.offset_y == 0,
        forall|k: int|
            0 <= k < lines_of(p.text).len() ==> (height as int / 2) + (#[trigger] (k
                * m.line_height)) / 1000 <= 2147483647,
        forall|k: int|
            0 <= k < lines_of(p.text).len() ==> (width as int / 2) - px_of_width(
                line_width(m, #[trigger] lines_of(p.text)[k]),
            ) / 2 >= -2147483648,
        (height as int / 2) + block_height_px(m, lines_of(p.text).len() as int) <= 2147483647,
    ensures
        !plan.rotate,
        plan.offset_x == 0,
        plan.offset_y == 0,
        plan.lines@.len() >= 1,
        plan.rule_y == height as int / 2,
        plan.rule2_y == height as int / 2 + block_height_px(m, lines_of(p.text).len() as int),
        forall|k: int|
            0 <= k < plan.lines@.len() ==> (#[trigger] plan.lines@[k])@.y == height as int / 2 + (k
                * m.line_height) / 1000,
        forall|k: int|
            0 <= k < plan.lines@.len() ==> 2 * (width as int / 2) <= 2 * (
            #[trigger] plan.lines@[k])@.x + px_of_width(line_width(m, lines_of(p.text)[k])) <= 2 * (
            width as int / 2) + 1,
{
    lemma_lines_nonempty(p.text);
    let cx = width as int / 2;
    let cy = height as int / 2;
    let lines = lines_of(p.text);
    assert(0 <= lines.len() * m.line_height) by (nonlinear_arith)
        requires
            0 <= lines.len(),
            0 <= m.line_height,
    ;
    assert forall|k: int| 0 <= k < plan.lines@.len() implies (#[trigger] plan.lines@[k])@.y == cy
        + (k * m.line_height) / 1000 by {
        assert(0 <= k * m.line_height) by (nonlinear_arith)
            requires
                0 <= k,
                0 <= m.line_height,
        ;
        assert(plan.lines@[k]@.y == line_y(m, cy, k));
    }
    assert forall|k: int| 0 <= k < plan.lines@.len() implies 2 * cx <= 2 * (
    #[trigger] plan.lines@[k])@.x + px_of_width(line_width(m, lines[k])) <= 2 * cx + 1 by {
        let w = px_of_width(line_width(m, lines[k]));
        assert(plan.lines@[k]@.x == line_x(m, lines[k], cx));
        assert(w >= 0);
        assert(plan.lines@[k]@.x == cx - w / 2);
        assert(w - 2 * (w / 2) == w % 2);
    }
}

/// Draws one decorative rule on the layer: a filled bar two pixels thick
/// spanning the layer's full width, its top row at `y`; rows outside the
/// layer are dropped. The plan's two rules frame the text block.
pub fn draw_rule(layer: &mut Image, y: i32, color: Rgba)
    requires
        old(layer).wf(),
    ensures
        final(layer).wf(),
        final(layer).width == old(layer).width,
        final(layer).height == old(layer).height,
        forall|xx: int, yy: int, kk: int|
            0 <= xx < old(layer).width && 0 <= yy < old(layer).height && 0 <= kk < 4 ==> pix(
                final(layer).data@,
                old(layer).width as int,
                xx,
                yy,
                kk,
            ) == (if covers(0, y as int, old(layer).width as int, 2, xx, yy) {
                channel(color, kk)
            } else {
                pix(old(layer).data@, old(layer).width as int, xx, yy, kk)
            }),
{
    let w = layer.width;
    layer.fill_rect(0, y, w, 2, color);
}

} // verus!
