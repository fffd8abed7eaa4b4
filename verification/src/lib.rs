//! A verified image-effect pipeline: an ordered, replayable stack of
//! effects (blur, brightness, contrast, text watermark) over an immutable
//! source image, together with the integer text-layout and
//! watermark-geometry engine that the watermark effect uses.
//!
//! Fractional quantities (blur sigma, contrast factor, font scale,
//! rotation angle, glyph metrics) are carried as integers in thousandths
//! of their natural unit, so everything here is exact integer arithmetic;
//! the floating-point imaging primitives themselves stay outside, driven
//! by the pipeline's decided render plan.

pub mod layout;
pub mod pipeline;
pub mod raster;
pub mod watermark;
