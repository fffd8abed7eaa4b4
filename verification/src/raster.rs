//! The library's raster type: an owned RGBA8 image in row-major order,
//! with verified pixel access, rectangle filling (used for the watermark's
//! decorative rules) and the gradient demo source, plus trusted entry
//! points into the `image` crate for brightening and alpha compositing.
use vstd::prelude::*;

verus! {

/// One RGBA color, one byte per channel.
#[derive(Clone, Copy, Debug, PartialEq, Eq, Structural)]
pub struct Rgba {
    pub r: u8,
    pub g: u8,
    pub b: u8,
    pub a: u8,
}

/// Channel `k` of a color, in byte order red, green, blue, alpha.
pub open spec fn channel(c: Rgba, k: int) -> u8 {
    if k == 0 {
        c.r
    } else if k == 1 {
        c.g
    } else if k == 2 {
        c.b
    } else {
        c.a
    }
}

/// Byte `k` of pixel `(x, y)` in a row-major RGBA8 buffer of width `w`.
pub open spec fn pix(data: Seq<u8>, w: int, x: int, y: int, k: int) -> u8 {
    data[4 * (y * w + x) + k]
}

/// An owned RGBA8 raster in row-major order: pixel `(x, y)` occupies bytes
/// `4 * (y * width + x) ..+ 4`, in the order red, green, blue, alpha.
pub struct Image {
    pub width: u32,
    pub height: u32,
    pub data: Vec<u8>,
}

/// Byte offsets of distinct in-bounds (pixel, channel) addresses differ.
proof fn lemma_pix_index_injective(
    w: int,
    h: int,
    x1: int,
    y1: int,
    k1: int,
    x2: int,
    y2: int,
    k2: int,
)
    by (nonlinear_arith)
    requires
        0 <= x1 < w,
        0 <= y1 < h,
        0 <= k1 < 4,
        0 <= x2 < w,
        0 <= y2 < h,
        0 <= k2 < 4,
        4 * (y1 * w + x1) + k1 == 4 * (y2 * w + x2) + k2,
    ensures
        x1 == x2,
        y1 == y2,
        k1 == k2,
{
}

/// Four bytes per pixel never overflow 128-bit arithmetic for 32-bit
/// dimensions.
proof fn lemma_byte_count_bound(w: int, h: int)
    by (nonlinear_arith)
    requires
        0 <= w <= u32::MAX,
        0 <= h <= u32::MAX,
    ensures
        0 <= 4 * w * h <= 4 * (u32::MAX as int) * (u32::MAX as int),
{
}

/// Every in-bounds (pixel, channel) address lies inside the buffer.
proof fn lemma_pix_index_bounds(w: int, h: int, x: int, y: int, k: int)
    by (nonlinear_arith)
    requires
        0 <= x < w,
        0 <= y < h,
        0 <= k < 4,
    ensures
        0 <= 4 * (y * w + x) + k < 4 * w * h,
{
}

impl Image {
    /// The buffer holds exactly one RGBA quadruple per pixel.
    pub open spec fn wf(&self) -> bool {
        self.data@.len() == 4 * (self.width as int) * (self.height as int)
    }

    /// A transparent-black image of the given dimensions: the off-screen
    /// layer a watermark is drawn on before compositing.
    pub fn new(width: u32, height: u32) -> (r: Image)
        requires
            4 * (width as int) * (height as int) <= usize::MAX,
        ensures
            r.wf(),
            r.width == width,
            r.height == height,
            forall|i: int| 0 <= i < r.data@.len() ==> r.data@[i] == 0u8,
    {
        proof {
            lemma_byte_count_bound(width as int, height as int);
        }
        let n128: u128 = 4 * (width as u128) * (height as u128);
        let n: usize = n128 as usize;
        let mut data: Vec<u8> = Vec::new();
        let mut i: usize = 0;
        while i < n
            invariant
                i <= n,
                data@.len() == i,
                forall|j: int| 0 <= j < i ==> data@[j] == 0u8,
            decreases n - i,
        {
            data.push(0u8);
            i = i + 1;
        }
        Image { width, height, data }
    }

    /// Wraps a raw RGBA8 buffer; rejects one whose length does not match
    /// the dimensions.
    pub fn from_raw(width: u32, height: u32, data: Vec<u8>) -> (r: Option<Image>)
        ensures
            match r {
                Some(img) => {
                    &&& img.wf()
                    &&& img.width == width
                    &&& img.height == height
                    &&& img.data@ == data@
                    &&& data@.len() == 4 * (width as int) * (height as int)
                },
                None => data@.len() != 4 * (width as int) * (height as int),
            },
    {
        proof {
            lemma_byte_count_bound(width as int, height as int);
        }
        let n = data.len();
        let need: u128 = 4 * (width as u128) * (height as u128);
        if (n as u128) == need {
            Some(Image { width, height, data })
        } else {
            None
        }
    }

    /// An independent copy with the same dimensions and bytes.
    pub fn duplicate(&self) -> (r: Image)
        ensures
            r.width == self.width,
            r.height == self.height,
            r.data@ == self.data@,
    {
        let n = self.data.len();
        let mut data: Vec<u8> = Vec::new();
        let mut i: usize = 0;
        while i < n
            invariant
                i <= n,
                n == self.data@.len(),
                data@.len() == i,
                forall|j: int| 0 <= j < i ==> data@[j] == self.data@[j],
            decreases n - i,
        {
            data.push(self.data[i]);
            i = i + 1;
        }
        proof {
            assert(data@ =~= self.data@);
        }
        Image { width: self.width, height: self.height, data }
    }

    /// Reads pixel `(x, y)`.
    pub fn get_pixel(&self, x: u32, y: u32) -> (c: Rgba)
        requires
            self.wf(),
            x < self.width,
            y < self.height,
        ensures
            forall|k: int|
                0 <= k < 4 ==> channel(c, k) == pix(
                    self.data@,
                    self.width as int,
                    x as int,
                    y as int,
                    k,
                ),
    {
        proof {
            lemma_pix_index_bounds(
                self.width as int,
                self.height as int,
                x as int,
                y as int,
                0,
            );
            lemma_pix_index_bounds(
                self.width as int,
                self.height as int,
                x as int,
                y as int,
                3,
            );
        }
        // Reading the length tells the verifier the buffer, and so every
        // pixel offset, fits in a usize.
        let n = self.data.len();
        let base: usize = 4 * ((y as usize) * (self.width as usize) + (x as usize));
        Rgba {
            r: self.data[base],
            g: self.data[base + 1],
            b: self.data[base + 2],
            a: self.data[base + 3],
        }
    }

    /// Overwrites pixel `(x, y)` with `c`; every other pixel is unchanged.
    pub fn put_pixel(&mut self, x: u32, y: u32, c: Rgba)
        requires
            old(self).wf(),
            x < old(self).width,
            y < old(self).height,
        ensures
            final(self).wf(),
            final(self).width == old(self).width,
            final(self).height == old(self).height,
            forall|xx: int, yy: int, kk: int|
                0 <= xx < old(self).width && 0 <= yy < old(self).height && 0 <= kk < 4 ==> pix(
                    final(self).data@,
                    old(self).width as int,
                    xx,
                    yy,
                    kk,
                ) == (if xx == x as int && yy == y as int {
                    channel(c, kk)
                } else {
                    pix(old(self).data@, old(self).width as int, xx, yy, kk)
                }),
    {
        proof {
            lemma_pix_index_bounds(
                self.width as int,
                self.height as int,
                x as int,
                y as int,
                0,
            );
            lemma_pix_index_bounds(
                self.width as int,
                self.height as int,
                x as int,
                y as int,
                3,
            );
        }
        // Reading the length tells the verifier the buffer, and so every
        // pixel offset, fits in a usize.
        let n = self.data.len();
        let base: usize = 4 * ((y as usize) * (self.width as usize) + (x as usize));
        self.data[base] = c.r;
        self.data[base + 1] = c.g;
        self.data[base + 2] = c.b;
        self.data[base + 3] = c.a;
        proof {
            let w = self.width as int;
            let h = self.height as int;
            assert forall|xx: int, yy: int, kk: int|
                0 <= xx < w && 0 <= yy < h && 0 <= kk < 4 implies pix(self.data@, w, xx, yy, kk)
                == (if xx == x as int && yy == y as int {
                channel(c, kk)
            } else {
                pix(old(self).data@, w, xx, yy, kk)
            }) by {
                lemma_pix_index_bounds(w, h, xx, yy, kk);
                if !(xx == x as int && yy == y as int) {
                    assert(4 * (yy * w + xx) + kk != base + 0
                        && 4 * (yy * w + xx) + kk != base + 1
                        && 4 * (yy * w + xx) + kk != base + 2
                        && 4 * (yy * w + xx) + kk != base + 3) by {
                        if 4 * (yy * w + xx) + kk == base + 0 {
                            lemma_pix_index_injective(w, h, xx, yy, kk, x as int, y as int, 0);
                        }
                        if 4 * (yy * w + xx) + kk == base + 1 {
                            lemma_pix_index_injective(w, h, xx, yy, kk, x as int, y as int, 1);
                        }
                        if 4 * (yy * w + xx) + kk == base + 2 {
                            lemma_pix_index_injective(w, h, xx, yy, kk, x as int, y as int, 2);
                        }
                        if 4 * (yy * w + xx) + kk == base + 3 {
                            lemma_pix_index_injective(w, h, xx, yy, kk, x as int, y as int, 3);
                        }
                    }
                } else {
                    if kk == 0 {
                        lemma_pix_index_injective(w, h, xx, yy, 0, x as int, y as int, 0);
                    }
                }
            }
        }
    }
}

/// Does the rectangle at `(rx, ry)` with extent `rw` by `rh` cover the
/// point `(x, y)`?
pub open spec fn covers(rx: int, ry: int, rw: int, rh: int, x: int, y: int) -> bool {
    rx <= x < rx + rw && ry <= y < ry + rh
}

/// Channel `k` of pixel `(x, y)` of the demonstration gradient source: red
/// and green ramp with the coordinates, blue is constant, fully opaque.
pub open spec fn gradient_channel(x: int, y: int, k: int) -> u8 {
    if k == 0 {
        ((x / 2) % 256) as u8
    } else if k == 1 {
        ((y / 2) % 256) as u8
    } else if k == 2 {
        128u8
    } else {
        255u8
    }
}

impl Image {
    /// Fills the part of the given rectangle that lies inside the image
    /// with `c`, leaving every other pixel unchanged. The watermark's
    /// decorative rules are drawn with this.
    pub fn fill_rect(&mut self, rx: i32, ry: i32, rw: u32, rh: u32, c: Rgba)
        requires
            old(self).wf(),
        ensures
            final(self).wf(),
            final(self).width == old(self).width,
            final(self).height == old(self).height,
            forall|xx: int, yy: int, kk: int|
                0 <= xx < old(self).width && 0 <= yy < old(self).height && 0 <= kk < 4 ==> pix(
                    final(self).data@,
                    old(self).width as int,
                    xx,
                    yy,
                    kk,
                ) == (if covers(rx as int, ry as int, rw as int, rh as int, xx, yy) {
                    channel(c, kk)
                } else {
                    pix(old(self).data@, old(self).width as int, xx, yy, kk)
                }),
    {
        let w = self.width;
        let h = self.height;
        let xs64: i64 = if rx < 0 {
            0
        } else {
            rx as i64
        };
        let mut xe64: i64 = rx as i64 + rw as i64;
        if xe64 > w as i64 {
            xe64 = w as i64;
        }
        let ys64: i64 = if ry < 0 {
            0
        } else {
            ry as i64
        };
        let mut ye64: i64 = ry as i64 + rh as i64;
        if ye64 > h as i64 {
            ye64 = h as i64;
        }
        if xs64 >= xe64 || ys64 >= ye64 {
            return ;
        }
        let xs: u32 = xs64 as u32;
        let xe: u32 = xe64 as u32;
        let ys: u32 = ys64 as u32;
        let ye: u32 = ye64 as u32;
        let mut y: u32 = ys;
        while y < ye
            invariant
                self.wf(),
                self.width == old(self).width,
                self.height == old(self).height,
                w == self.width,
                h == self.height,
                xs <= xe <= w,
                ys <= y <= ye <= h,
                xs as int == if rx < 0 { 0int } else { rx as int },
                xe as int == if rx as int + rw as int > w as int { w as int } else { rx as int + rw as int },
                ys as int == if ry < 0 { 0int } else { ry as int },
                ye as int == if ry as int + rh as int > h as int { h as int } else { ry as int + rh as int },
                forall|xx: int, yy: int, kk: int|
                    0 <= xx < w && 0 <= yy < h && 0 <= kk < 4 ==> pix(
                        self.data@,
                        w as int,
                        xx,
                        yy,
                        kk,
                    ) == (if covers(rx as int, ry as int, rw as int, rh as int, xx, yy) && yy
                        < y as int {
                        channel(c, kk)
                    } else {
                        pix(old(self).data@, w as int, xx, yy, kk)
                    }),
            decreases ye - y,
        {
            let mut x: u32 = xs;
            while x < xe
                invariant
                    self.wf(),
                    self.width == old(self).width,
                    self.height == old(self).height,
                    w == self.width,
                    h == self.height,
                    xs <= x <= xe <= w,
                    ys <= y < ye <= h,
                    xs as int == if rx < 0 { 0int } else { rx as int },
                    xe as int == if rx as int + rw as int > w as int { w as int } else { rx as int + rw as int },
                    ys as int == if ry < 0 { 0int } else { ry as int },
                    ye as int == if ry as int + rh as int > h as int { h as int } else { ry as int + rh as int },
                    forall|xx: int, yy: int, kk: int|
                        0 <= xx < w && 0 <= yy < h && 0 <= kk < 4 ==> pix(
                            self.data@,
                            w as int,
                            xx,
                            yy,
                            kk,
                        ) == (if covers(rx as int, ry as int, rw as int, rh as int, xx, yy) && (yy
                            < y as int || (yy == y as int && xx < x as int)) {
                            channel(c, kk)
                        } else {
                            pix(old(self).data@, w as int, xx, yy, kk)
                        }),
                decreases xe - x,
            {
                self.put_pixel(x, y, c);
                x = x + 1;
            }
            y = y + 1;
        }
    }

    /// The demonstration source image: a diagonal color gradient, the
    /// stand-in picture the pipeline is seeded with.
    pub fn gradient(width: u32, height: u32) -> (r: Image)
        requires
            4 * (width as int) * (height as int) <= usize::MAX,
        ensures
            r.wf(),
            r.width == width,
            r.height == height,
            forall|x: int, y: int, k: int|
                0 <= x < width && 0 <= y < height && 0 <= k < 4 ==> pix(
                    r.data@,
                    width as int,
                    x,
                    y,
                    k,
                ) == gradient_channel(x, y, k),
    {
        let mut img = Image::new(width, height);
        let mut y: u32 = 0;
        while y < height
            invariant
                img.wf(),
                img.width == width,
                img.height == height,
                y <= height,
                forall|xx: int, yy: int, kk: int|
                    0 <= xx < width && 0 <= yy < y && 0 <= kk < 4 ==> pix(
                        img.data@,
                        width as int,
                        xx,
                        yy,
                        kk,
                    ) == gradient_channel(xx, yy, kk),
            decreases height - y,
        {
            let mut x: u32 = 0;
            while x < width
                invariant
                    img.wf(),
                    img.width == width,
                    img.height == height,
                    y < height,
                    x <= width,
                    forall|xx: int, yy: int, kk: int|
                        0 <= xx < width && 0 <= yy < y && 0 <= kk < 4 ==> pix(
                            img.data@,
                            width as int,
                            xx,
                            yy,
                            kk,
                        ) == gradient_channel(xx, yy, kk),
                    forall|xx: int, kk: int|
                        0 <= xx < x && 0 <= kk < 4 ==> pix(
                            img.data@,
                            width as int,
                            xx,
                            y as int,
                            kk,
                        ) == gradient_channel(xx, y as int, kk),
                decreases width - x,
            {
                let color = Rgba {
                    r: ((x / 2) % 256) as u8,
                    g: ((y / 2) % 256) as u8,
                    b: 128,
                    a: 255,
                };
                img.put_pixel(x, y, color);
                x = x + 1;
            }
            y = y + 1;
        }
        img
    }
}

/// The value of one color channel after a brightness adjustment: shifted
/// by `delta` and clamped to the byte range. The alpha channel is exempt.
pub open spec fn brightened(v: u8, delta: int) -> u8 {
    if v + delta < 0 {
        0u8
    } else if v + delta > 255 {
        255u8
    } else {
        (v + delta) as u8
    }
}

/// Does a layer of extent `tw` by `th`, placed with its top-left corner
/// at the signed offset `(dx, dy)`, cover the pixel `(bx, by)` beneath it?
pub open spec fn layer_covers(tw: int, th: int, dx: int, dy: int, bx: int, by: int) -> bool {
    0 <= bx - dx < tw && 0 <= by - dy < th
}

/// The bytes that `image::imageops::overlay` produces when it
/// alpha-composites the `top` buffer onto the `bottom` buffer at offset
/// `(dx, dy)`: a pure function of its arguments.
pub uninterp spec fn overlay_of(
    bottom: Seq<u8>,
    bw: int,
    bh: int,
    top: Seq<u8>,
    tw: int,
    th: int,
    dx: int,
    dy: int,
) -> Seq<u8>;

/// Relies on `image::imageops::brighten`: each color channel is shifted by
/// `delta` and clamped to the byte range, alpha channels are kept, and the
/// dimensions are unchanged. The backend adds `delta` to a channel in
/// 32-bit arithmetic before clamping, so deltas within one channel's
/// range of the 32-bit maximum are kept out.
#[verifier::external_body]
fn brighten_raw(img: &Image, delta: i32) -> (r: Image)
    requires
        img.wf(),
        delta <= i32::MAX - 255,
    ensures
        r.width == img.width,
        r.height == img.height,
        r.data@.len() == img.data@.len(),
        forall|x: int, y: int, k: int|
            0 <= x < img.width && 0 <= y < img.height && 0 <= k < 4 ==> pix(
                r.data@,
                img.width as int,
                x,
                y,
                k,
            ) == (if k == 3 {
                pix(img.data@, img.width as int, x, y, k)
            } else {
                brightened(pix(img.data@, img.width as int, x, y, k), delta as int)
            }),
{
    let buf = image::RgbaImage::from_raw(img.width, img.height, img.data.clone()).unwrap();
    let out = image::imageops::brighten(&buf, delta);
    Image { width: img.width, height: img.height, data: out.into_raw() }
}

/// Relies on `image::imageops::overlay`: it alpha-composites `top` onto
/// `bottom` at the signed offset, keeps `bottom`'s dimensions, and
/// computes a pure function of its arguments, named `overlay_of` here.
/// Its bounds math writes exactly the pixels the placed layer covers, so
/// parts of the layer outside `bottom` are silently dropped and an
/// uncovered pixel keeps its bytes; its blend returns the untouched
/// pixel under a fully transparent layer pixel and copies a fully
/// opaque one.
#[verifier::external_body]
fn overlay_raw(bottom: &mut Image, top: &Image, dx: i64, dy: i64)
    requires
        old(bottom).wf(),
        top.wf(),
    ensures
        final(bottom).width == old(bottom).width,
        final(bottom).height == old(bottom).height,
        final(bottom).data@.len() == old(bottom).data@.len(),
        final(bottom).data@ == overlay_of(
            old(bottom).data@,
            old(bottom).width as int,
            old(bottom).height as int,
            top.data@,
            top.width as int,
            top.height as int,
            dx as int,
            dy as int,
        ),
        forall|bx: int, by: int, k: int|
            0 <= bx < old(bottom).width && 0 <= by < old(bottom).height && 0 <= k < 4
                && !layer_covers(
                top.width as int,
                top.height as int,
                dx as int,
                dy as int,
                bx,
                by,
            ) ==> pix(final(bottom).data@, old(bottom).width as int, bx, by, k) == pix(
                old(bottom).data@,
                old(bottom).width as int,
                bx,
                by,
                k,
            ),
        forall|bx: int, by: int, k: int|
            0 <= bx < old(bottom).width && 0 <= by < old(bottom).height && 0 <= k < 4
                && layer_covers(top.width as int, top.height as int, dx as int, dy as int, bx, by)
                && pix(top.data@, top.width as int, bx - dx as int, by - dy as int, 3) == 0 ==> pix(
                final(bottom).data@,
                old(bottom).width as int,
                bx,
                by,
                k,
            ) == pix(old(bottom).data@, old(bottom).width as int, bx, by, k),
        forall|bx: int, by: int, k: int|
            0 <= bx < old(bottom).width && 0 <= by < old(bottom).height && 0 <= k < 4
                && layer_covers(top.width as int, top.height as int, dx as int, dy as int, bx, by)
                && pix(top.data@, top.width as int, bx - dx as int, by - dy as int, 3) == 255
                ==> pix(final(bottom).data@, old(bottom).width as int, bx, by, k) == pix(
                top.data@,
                top.width as int,
                bx - dx as int,
                by - dy as int,
                k,
            ),
{
    let mut base = image::RgbaImage::from_raw(bottom.width, bottom.height, bottom.data.clone()).unwrap();
    let layer = image::RgbaImage::from_raw(top.width, top.height, top.data.clone()).unwrap();
    image::imageops::overlay(&mut base, &layer, dx, dy);
    bottom.data = base.into_raw();
}

/// Applies a uniform additive brightness adjustment: every color channel
/// moves by `delta` and clamps to the byte range; alpha is untouched.
/// Deltas within one channel's range of the 32-bit maximum are excluded,
/// a machine limit of the backend's channel arithmetic; every delta that
/// large saturates each channel exactly as `i32::MAX - 255` does.
pub fn apply_brightness(img: &Image, delta: i32) -> (r: Image)
    requires
        img.wf(),
        delta <= i32::MAX - 255,
    ensures
        r.wf(),
        r.width == img.width,
        r.height == img.height,
        forall|x: int, y: int, k: int|
            0 <= x < img.width && 0 <= y < img.height && 0 <= k < 4 ==> pix(
                r.data@,
                img.width as int,
                x,
                y,
                k,
            ) == (if k == 3 {
                pix(img.data@, img.width as int, x, y, k)
            } else {
                brightened(pix(img.data@, img.width as int, x, y, k), delta as int)
            }),
{
    brighten_raw(img, delta)
}

/// Alpha-composites `top` onto `bottom` at the signed pixel offset
/// `(dx, dy)`. Parts of `top` outside `bottom` are silently dropped, a
/// pixel the layer does not cover — or covers with a fully transparent
/// pixel — keeps its bytes, and a fully opaque layer pixel replaces the
/// pixel under it.
pub fn composite_layer(bottom: &mut Image, top: &Image, dx: i64, dy: i64)
    requires
        old(bottom).wf(),
        top.wf(),
    ensures
        final(bottom).wf(),
        final(bottom).width == old(bottom).width,
        final(bottom).height == old(bottom).height,
        final(bottom).data@ == overlay_of(
            old(bottom).data@,
            old(bottom).width as int,
            old(bottom).height as int,
            top.data@,
            top.width as int,
            top.height as int,
            dx as int,
            dy as int,
        ),
        forall|bx: int, by: int, k: int|
            0 <= bx < old(bottom).width && 0 <= by < old(bottom).height && 0 <= k < 4
                && !layer_covers(
                top.width as int,
                top.height as int,
                dx as int,
                dy as int,
                bx,
                by,
            ) ==> pix(final(bottom).data@, old(bottom).width as int, bx, by, k) == pix(
                old(bottom).data@,
                old(bottom).width as int,
                bx,
                by,
                k,
            ),
        forall|bx: int, by: int, k: int|
            0 <= bx < old(bottom).width && 0 <= by < old(bottom).height && 0 <= k < 4
                && layer_covers(top.width as int, top.height as int, dx as int, dy as int, bx, by)
                && pix(top.data@, top.width as int, bx - dx as int, by - dy as int, 3) == 0 ==> pix(
                final(bottom).data@,
                old(bottom).width as int,
                bx,
                by,
                k,
            ) == pix(old(bottom).data@, old(bottom).width as int, bx, by, k),
        forall|bx: int, by: int, k: int|
            0 <= bx < old(bottom).width && 0 <= by < old(bottom).height && 0 <= k < 4
                && layer_covers(top.width as int, top.height as int, dx as int, dy as int, bx, by)
                && pix(top.data@, top.width as int, bx - dx as int, by - dy as int, 3) == 255
                ==> pix(final(bottom).data@, old(bottom).width as int, bx, by, k) == pix(
                top.data@,
                top.width as int,
                bx - dx as int,
                by - dy as int,
                k,
            ),
{
    overlay_raw(bottom, top, dx, dy)
}

} // verus!
