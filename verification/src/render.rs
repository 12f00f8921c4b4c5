//! Rendering's integer half: the image a view is drawn into, and the
//! fixed-point tests the rasteriser decides coverage with.

use vstd::prelude::*;
use image::ImageEncoder;
use crate::font::Font;
use crate::service::all_views;
use crate::text::chars_of;

verus! {

/// Bytes `p` written over `d` from index `i`.
pub open spec fn put(d: Seq<u8>, i: int, p: Seq<u8>) -> Seq<u8> {
    d.update(i, p[0]).update(i + 1, p[1]).update(i + 2, p[2])
}

proof fn lemma_index(w: int, h: int, x: int, y: int)
    by (nonlinear_arith)
    requires
        0 <= x < w,
        0 <= y < h,
    ensures
        0 <= y * w + x,
        y * w + x + 1 <= w * h,
{
}

proof fn lemma_mul_le(a: int, b: int, w: int)
    by (nonlinear_arith)
    requires
        0 <= a <= b,
        0 <= w,
    ensures
        a * w <= b * w,
{
}

proof fn lemma_distinct(w: int, x: int, y: int, a: int, b: int)
    requires
        0 <= x < w,
        0 <= a < w,
        0 <= y,
        0 <= b,
        x != a || y != b,
    ensures
        y * w + x != b * w + a,
{
    if y > b {
        lemma_mul_le(b + 1, y, w);
        assert((b + 1) * w == b * w + w) by (nonlinear_arith);
    } else if y < b {
        lemma_mul_le(y + 1, b, w);
        assert((y + 1) * w == y * w + w) by (nonlinear_arith);
    }
}

/// An RGB image, row-major from the top-left, three bytes a pixel.
pub struct Rgb {
    pub width: u32,
    pub height: u32,
    pub data: Vec<u8>,
}

impl Rgb {
    /// The buffer holds exactly the pixels, and a byte's index fits in `u32`.
    pub open spec fn wf(&self) -> bool {
        &&& self.data@.len() == 3 * (self.width * self.height)
        &&& 3 * (self.width * self.height) <= u32::MAX
    }

    /// Where pixel (`x`, `y`) starts.
    pub open spec fn offset(&self, x: int, y: int) -> int {
        3 * (y * self.width + x)
    }

    /// The three bytes of pixel (`x`, `y`).
    pub open spec fn pixel(&self, x: int, y: int) -> Seq<u8> {
        self.data@.subrange(self.offset(x, y), self.offset(x, y) + 3)
    }

    /// An image of one colour.
    pub fn new(width: u32, height: u32, fill: [u8; 3]) -> (img: Self)
        requires
            3 * (width * height) <= u32::MAX,
        ensures
            img.wf(),
            img.width == width,
            img.height == height,
            forall|x: int, y: int| 0 <= x < width && 0 <= y < height ==> #[trigger] img.pixel(x, y) == fill@,
    {
        let n = width * height;
        let mut data: Vec<u8> = Vec::new();
        let mut k: u32 = 0;
        while k < n
            invariant
                n == width * height,
                3 * n <= u32::MAX,
                k <= n,
                data@.len() == 3 * k,
                forall|p: int, c: int| 0 <= p < k && 0 <= c < 3 ==> #[trigger] data@[3 * p + c] == fill@[c],
            decreases n - k,
        {
            data.push(fill[0]);
            data.push(fill[1]);
            data.push(fill[2]);
            proof {
                assert forall|p: int, c: int| 0 <= p < k + 1 && 0 <= c < 3 implies #[trigger] data@[3 * p + c]
                    == fill@[c] by {
                    if p == k {
                        assert(c == 0 || c == 1 || c == 2);
                    }
                }
            }
            k = k + 1;
        }
        let img = Rgb { width, height, data };
        proof {
            assert forall|x: int, y: int| 0 <= x < width && 0 <= y < height implies #[trigger] img.pixel(x, y)
                == fill@ by {
                lemma_index(width as int, height as int, x, y);
                let p = y * width + x;
                assert(img.data@[3 * p + 0] == fill@[0]);
                assert(img.data@[3 * p + 1] == fill@[1]);
                assert(img.data@[3 * p + 2] == fill@[2]);
                assert(img.pixel(x, y) =~= fill@);
            }
        }
        img
    }

    /// Paint one pixel; a pixel off the image is ignored.
    pub fn set(&mut self, x: u32, y: u32, px: [u8; 3])
        requires
            old(self).wf(),
        ensures
            final(self).wf(),
            final(self).width == old(self).width,
            final(self).height == old(self).height,
            x < old(self).width && y < old(self).height ==> final(self).data@ == put(
                old(self).data@,
                old(self).offset(x as int, y as int),
                px@,
            ),
            !(x < old(self).width && y < old(self).height) ==> final(self).data@ == old(self).data@,
            forall|a: int, b: int|
                0 <= a < old(self).width && 0 <= b < old(self).height ==> #[trigger] final(self).pixel(a, b) == if a
                    == x && b == y {
                    px@
                } else {
                    old(self).pixel(a, b)
                },
    {
        if x >= self.width || y >= self.height {
            return;
        }
        proof {
            lemma_index(self.width as int, self.height as int, x as int, y as int);
        }
        let i = ((y * self.width + x) * 3) as usize;
        self.data.set(i, px[0]);
        self.data.set(i + 1, px[1]);
        self.data.set(i + 2, px[2]);
        proof {
            let w = self.width as int;
            let h = self.height as int;
            assert forall|a: int, b: int| 0 <= a < w && 0 <= b < h implies #[trigger] self.pixel(a, b) == if a == x
                && b == y {
                px@
            } else {
                old(self).pixel(a, b)
            } by {
                lemma_index(w, h, a, b);
                if a == x && b == y {
                    assert(self.pixel(a, b) =~= px@);
                } else {
                    lemma_distinct(w, a, b, x as int, y as int);
                    assert(self.pixel(a, b) =~= old(self).pixel(a, b));
                }
            }
        }
    }

    /// The colour of pixel (`x`, `y`).
    pub fn get(&self, x: u32, y: u32) -> (px: [u8; 3])
        requires
            self.wf(),
            x < self.width,
            y < self.height,
        ensures
            px@ == self.pixel(x as int, y as int),
    {
        proof {
            lemma_index(self.width as int, self.height as int, x as int, y as int);
        }
        let i = ((y * self.width + x) * 3) as usize;
        let px = [self.data[i], self.data[i + 1], self.data[i + 2]];
        assert(px@ =~= self.pixel(x as int, y as int));
        px
    }

    /// Fill the rectangle from (`x0`, `y0`) up to but not including
    /// (`x1`, `y1`), clipped to the image.
    pub fn rect(&mut self, x0: u32, y0: u32, x1: u32, y1: u32, px: [u8; 3])
        requires
            old(self).wf(),
        ensures
            final(self).wf(),
            final(self).width == old(self).width,
            final(self).height == old(self).height,
            forall|a: int, b: int|
                0 <= a < old(self).width && 0 <= b < old(self).height ==> #[trigger] final(self).pixel(a, b) == if x0
                    <= a < x1 && y0 <= b < y1 {
                    px@
                } else {
                    old(self).pixel(a, b)
                },
    {
        let ghost before = *self;
        let w = self.width;
        let h = self.height;
        let ye = if y1 < h { y1 } else { h };
        let xe = if x1 < w { x1 } else { w };
        let mut y: u32 = y0;
        while y < ye
            invariant
                self.wf(),
                self.width == w,
                self.height == h,
                before.width == w,
                before.height == h,
                ye <= h,
                xe <= w,
                ye == (if y1 < h { y1 } else { h }),
                xe == (if x1 < w { x1 } else { w }),
                y0 <= y || y >= ye,
                forall|a: int, b: int|
                    0 <= a < w && 0 <= b < h ==> #[trigger] self.pixel(a, b) == if x0 <= a < x1 && y0 <= b < y1 && b
                        < y {
                        px@
                    } else {
                        before.pixel(a, b)
                    },
            decreases ye - y,
        {
            let mut x: u32 = x0;
            while x < xe
                invariant
                    self.wf(),
                    self.width == w,
                    self.height == h,
                    y < ye <= h,
                    xe <= w,
                    xe == (if x1 < w { x1 } else { w }),
                    ye == (if y1 < h { y1 } else { h }),
                    y0 <= y,
                    x0 <= x || x >= xe,
                    forall|a: int, b: int|
                        0 <= a < w && 0 <= b < h ==> #[trigger] self.pixel(a, b) == if x0 <= a < x1 && y0 <= b < y1 && (b
                            < y || (b == y && a < x)) {
                            px@
                        } else {
                            before.pixel(a, b)
                        },
                decreases xe - x,
            {
                self.set(x, y, px);
                x = x + 1;
            }
            y = y + 1;
        }
    }

    /// Copy `src` in with its top-left corner at (`ox`, `oy`), clipped to
    /// this image.
    pub fn blit(&mut self, src: &Rgb, ox: u32, oy: u32)
        requires
            old(self).wf(),
            src.wf(),
            src.width == 0 || src.height == 0 || (ox + src.width - 1 <= u32::MAX && oy + src.height - 1
                <= u32::MAX),
        ensures
            final(self).wf(),
            final(self).width == old(self).width,
            final(self).height == old(self).height,
            forall|a: int, b: int|
                0 <= a < old(self).width && 0 <= b < old(self).height ==> #[trigger] final(self).pixel(a, b) == if ox
                    <= a < ox + src.width && oy <= b < oy + src.height {
                    src.pixel(a - ox, b - oy)
                } else {
                    old(self).pixel(a, b)
                },
    {
        let ghost before = *self;
        let w = self.width;
        let h = self.height;
        let mut y: u32 = 0;
        while y < src.height
            invariant
                self.wf(),
                src.wf(),
                self.width == w,
                self.height == h,
                before.width == w,
                before.height == h,
                y <= src.height,
                src.width == 0 || src.height == 0 || (ox + src.width - 1 <= u32::MAX && oy + src.height - 1
                    <= u32::MAX),
                forall|a: int, b: int|
                    0 <= a < w && 0 <= b < h ==> #[trigger] self.pixel(a, b) == if ox <= a < ox + src.width && oy <= b
                        < oy + y {
                        src.pixel(a - ox, b - oy)
                    } else {
                        before.pixel(a, b)
                    },
            decreases src.height - y,
        {
            let mut x: u32 = 0;
            while x < src.width
                invariant
                    self.wf(),
                    src.wf(),
                    self.width == w,
                    self.height == h,
                    y < src.height,
                    x <= src.width,
                    src.width == 0 || (ox + src.width - 1 <= u32::MAX && oy + src.height - 1 <= u32::MAX),
                    forall|a: int, b: int|
                        0 <= a < w && 0 <= b < h ==> #[trigger] self.pixel(a, b) == if (ox <= a < ox + src.width && oy
                            <= b < oy + y) || (b == oy + y && ox <= a < ox + x) {
                            src.pixel(a - ox, b - oy)
                        } else {
                            before.pixel(a, b)
                        },
                decreases src.width - x,
            {
                let p = src.get(x, y);
                self.set(ox + x, oy + y, p);
                x = x + 1;
            }
            y = y + 1;
        }
    }
}


proof fn lemma_block_coord(x: int, q: int, f: int, w: int)
    requires
        f > 0,
        0 <= x < w / f,
        0 <= q < f,
        w >= 0,
    ensures
        x * f + q < w,
        0 <= x * f + q,
{
    assert(x * f + q < w) by (nonlinear_arith)
        requires
            f > 0,
            0 <= x,
            x + 1 <= w / f,
            0 <= q < f,
            w >= 0,
    {
        assert((x + 1) * f <= (w / f) * f);
        assert((w / f) * f <= w);
    }
    assert(0 <= x * f + q) by (nonlinear_arith)
        requires
            f > 0,
            0 <= x,
            0 <= q,
    ;
}

proof fn lemma_small_area(w: int, h: int, f: int)
    by (nonlinear_arith)
    requires
        f > 1,
        w >= 0,
        h >= 0,
    ensures
        (w / f) * (h / f) <= w * h,
{
    assert(w / f <= w);
    assert(h / f <= h);
    assert(0 <= w / f);
    assert(0 <= h / f);
}

impl Rgb {
    /// Channel `c` summed along row `yy` over `q` pixels from column `x0`.
    pub open spec fn row_sum(&self, x0: int, yy: int, c: int, q: nat) -> int
        decreases q,
    {
        if q == 0 {
            0
        } else {
            self.row_sum(x0, yy, c, (q - 1) as nat) + self.pixel(x0 + q - 1, yy)[c] as int
        }
    }

    /// Channel `c` summed over the first `r` rows of the `f` by `f` block
    /// whose output pixel is (`x`, `y`).
    pub open spec fn block_sum(&self, x: int, y: int, f: nat, c: int, r: nat) -> int
        decreases r,
    {
        if r == 0 {
            0
        } else {
            self.block_sum(x, y, f, c, (r - 1) as nat) + self.row_sum(x * f, y * f + r - 1, c, f)
        }
    }

    /// The average of the block under output pixel (`x`, `y`).
    pub open spec fn block_average(&self, x: int, y: int, f: nat) -> Seq<u8> {
        seq![
            (self.block_sum(x, y, f, 0, f) / (f * f) as int) as u8,
            (self.block_sum(x, y, f, 1, f) / (f * f) as int) as u8,
            (self.block_sum(x, y, f, 2, f) / (f * f) as int) as u8,
        ]
    }

    proof fn lemma_row_bound(&self, x0: int, yy: int, c: int, q: nat)
        requires
            0 <= c < 3,
        ensures
            0 <= self.row_sum(x0, yy, c, q) <= 255 * q,
        decreases q,
    {
        if q > 0 {
            self.lemma_row_bound(x0, yy, c, (q - 1) as nat);
        }
    }

    proof fn lemma_block_bound(&self, x: int, y: int, f: nat, c: int, r: nat)
        requires
            0 <= c < 3,
        ensures
            0 <= self.block_sum(x, y, f, c, r) <= 255 * f * r,
        decreases r,
    {
        if r > 0 {
            self.lemma_block_bound(x, y, f, c, (r - 1) as nat);
            self.lemma_row_bound(x * f, y * f + r - 1, c, f);
            assert(255 * f * (r - 1) + 255 * f == 255 * f * r) by (nonlinear_arith);
        }
    }

    /// Average `factor` by `factor` blocks down to one pixel; a factor of
    /// one or less copies the image.
    pub fn downsample(&self, factor: u32) -> (out: Rgb)
        requires
            self.wf(),
            factor <= 1 || (factor * factor <= u32::MAX && (self.width / factor == 0 || self.height / factor == 0
                || 255 * (factor * factor) <= u32::MAX)),
        ensures
            out.wf(),
            factor <= 1 ==> out.width == self.width && out.height == self.height && out.data@ == self.data@,
            factor > 1 ==> out.width == self.width / factor && out.height == self.height / factor,
            factor > 1 ==> forall|x: int, y: int|
                0 <= x < out.width && 0 <= y < out.height ==> #[trigger] out.pixel(x, y) == self.block_average(
                    x,
                    y,
                    factor as nat,
                ),
    {
        if factor <= 1 {
            return Rgb { width: self.width, height: self.height, data: self.data.clone() };
        }
        let w = self.width / factor;
        let h = self.height / factor;
        proof {
            lemma_small_area(self.width as int, self.height as int, factor as int);
        }
        let mut out = Rgb::new(w, h, [0, 0, 0]);
        let n = factor * factor;
        let ghost f = factor as nat;
        let mut y: u32 = 0;
        while y < h
            invariant
                self.wf(),
                out.wf(),
                out.width == w,
                out.height == h,
                w == self.width / factor,
                h == self.height / factor,
                factor > 1,
                f == factor as nat,
                n == factor * factor,
                w == 0 || h == 0 || 255 * (factor * factor) <= u32::MAX,
                y <= h,
                forall|a: int, b: int|
                    0 <= a < w && 0 <= b < y ==> #[trigger] out.pixel(a, b) == self.block_average(a, b, f),
            decreases h - y,
        {
            let mut x: u32 = 0;
            while x < w
                invariant
                    self.wf(),
                    out.wf(),
                    out.width == w,
                    out.height == h,
                    w == self.width / factor,
                    h == self.height / factor,
                    factor > 1,
                    f == factor as nat,
                    n == factor * factor,
                    w == 0 || 255 * (factor * factor) <= u32::MAX,
                    y < h,
                    x <= w,
                    forall|a: int, b: int|
                        0 <= a < w && 0 <= b < h && (b < y || (b == y && a < x)) ==> #[trigger] out.pixel(a, b)
                            == self.block_average(a, b, f),
                decreases w - x,
            {
                let mut a0: u32 = 0;
                let mut a1: u32 = 0;
                let mut a2: u32 = 0;
                let mut dy: u32 = 0;
                while dy < factor
                    invariant
                        self.wf(),
                        w == self.width / factor,
                        h == self.height / factor,
                        factor > 1,
                        f == factor as nat,
                        255 * (factor * factor) <= u32::MAX,
                        x < w,
                        y < h,
                        dy <= factor,
                        a0 == self.block_sum(x as int, y as int, f, 0, dy as nat),
                        a1 == self.block_sum(x as int, y as int, f, 1, dy as nat),
                        a2 == self.block_sum(x as int, y as int, f, 2, dy as nat),
                    decreases factor - dy,
                {
                    proof {
                        self.lemma_block_bound(x as int, y as int, f, 0, dy as nat);
                        self.lemma_block_bound(x as int, y as int, f, 1, dy as nat);
                        self.lemma_block_bound(x as int, y as int, f, 2, dy as nat);
                        lemma_block_coord(y as int, dy as int, factor as int, self.height as int);
                    }
                    let mut dx: u32 = 0;
                    while dx < factor
                        invariant
                            self.wf(),
                            w == self.width / factor,
                            h == self.height / factor,
                            factor > 1,
                            f == factor as nat,
                            255 * (factor * factor) <= u32::MAX,
                            x < w,
                            y < h,
                            dy < factor,
                            y * factor + dy < self.height,
                            dx <= factor,
                            0 <= self.block_sum(x as int, y as int, f, 0, dy as nat) <= 255 * f * dy,
                            0 <= self.block_sum(x as int, y as int, f, 1, dy as nat) <= 255 * f * dy,
                            0 <= self.block_sum(x as int, y as int, f, 2, dy as nat) <= 255 * f * dy,
                            a0 == self.block_sum(x as int, y as int, f, 0, dy as nat) + self.row_sum(
                                x * f,
                                y * f + dy,
                                0,
                                dx as nat,
                            ),
                            a1 == self.block_sum(x as int, y as int, f, 1, dy as nat) + self.row_sum(
                                x * f,
                                y * f + dy,
                                1,
                                dx as nat,
                            ),
                            a2 == self.block_sum(x as int, y as int, f, 2, dy as nat) + self.row_sum(
                                x * f,
                                y * f + dy,
                                2,
                                dx as nat,
                            ),
                        decreases factor - dx,
                    {
                        proof {
                            lemma_block_coord(x as int, dx as int, factor as int, self.width as int);
                            self.lemma_row_bound(x * f, y * f + dy, 0, dx as nat);
                            self.lemma_row_bound(x * f, y * f + dy, 1, dx as nat);
                            self.lemma_row_bound(x * f, y * f + dy, 2, dx as nat);
                            assert(255 * f * dy + 255 * (dx + 1) <= 255 * (f * f)) by (nonlinear_arith)
                                requires
                                    dy < f,
                                    dx < f,
                                    f > 1,
                            ;
                        }
                        let p = self.get(x * factor + dx, y * factor + dy);
                        a0 = a0 + p[0] as u32;
                        a1 = a1 + p[1] as u32;
                        a2 = a2 + p[2] as u32;
                        dx = dx + 1;
                    }
                    dy = dy + 1;
                }
                proof {
                    assert(n > 0) by (nonlinear_arith)
                        requires
                            factor > 1,
                            n == factor * factor,
                    ;
                    self.lemma_block_bound(x as int, y as int, f, 0, f);
                    self.lemma_block_bound(x as int, y as int, f, 1, f);
                    self.lemma_block_bound(x as int, y as int, f, 2, f);
                    assert(255 * f * f == 255 * (f * f)) by (nonlinear_arith);
                    assert(a0 / n <= 255) by (nonlinear_arith)
                        requires
                            a0 <= 255 * (f * f),
                            n == f * f,
                            n > 0,
                    ;
                    assert(a1 / n <= 255) by (nonlinear_arith)
                        requires
                            a1 <= 255 * (f * f),
                            n == f * f,
                            n > 0,
                    ;
                    assert(a2 / n <= 255) by (nonlinear_arith)
                        requires
                            a2 <= 255 * (f * f),
                            n == f * f,
                            n > 0,
                    ;
                }
                let avg = [(a0 / n) as u8, (a1 / n) as u8, (a2 / n) as u8];
                assert(avg@ =~= self.block_average(x as int, y as int, f));
                out.set(x, y, avg);
                x = x + 1;
            }
            y = y + 1;
        }
        out
    }
}


#[verifier::external_type_specification]
#[verifier::external_body]
pub struct ExImageError(image::ImageError);

/// What the `image` crate's PNG encoder produces for this many pixels of
/// RGB, or `None` where it refuses them.
pub uninterp spec fn png_encoding(width: u32, height: u32, pixels: Seq<u8>) -> Option<Seq<u8>>;

/// What the `image` crate's lossless WebP encoder produces for these
/// pixels, or `None` where it refuses them.
pub uninterp spec fn webp_encoding(width: u32, height: u32, pixels: Seq<u8>) -> Option<Seq<u8>>;

/// `image::codecs::png::PngEncoder::write_image` on RGB8 pixels, into memory.
/// Trusted to return the encoder's bytes, which depend on the pixels and the
/// size alone; which inputs it refuses is left to the encoder.
#[verifier::external_body]
fn encode_png(pixels: &[u8], width: u32, height: u32) -> (r: Result<Vec<u8>, image::ImageError>)
    requires
        pixels@.len() == 3 * (width * height),
    ensures
        r is Ok <==> png_encoding(width, height, pixels@) is Some,
        r matches Ok(v) ==> png_encoding(width, height, pixels@) == Some(v@),
{
    let mut png = Vec::new();
    image::codecs::png::PngEncoder::new(&mut png).write_image(pixels, width, height, image::ExtendedColorType::Rgb8)?;
    Ok(png)
}

/// `image::codecs::webp::WebPEncoder::write_image`, lossless, on RGB8
/// pixels, into memory. Trusted as [`encode_png`] is.
#[verifier::external_body]
fn encode_webp(pixels: &[u8], width: u32, height: u32) -> (r: Result<Vec<u8>, image::ImageError>)
    requires
        pixels@.len() == 3 * (width * height),
    ensures
        r is Ok <==> webp_encoding(width, height, pixels@) is Some,
        r matches Ok(v) ==> webp_encoding(width, height, pixels@) == Some(v@),
{
    let mut webp = Vec::new();
    image::codecs::webp::WebPEncoder::new_lossless(&mut webp).write_image(
        pixels,
        width,
        height,
        image::ExtendedColorType::Rgb8,
    )?;
    Ok(webp)
}

/// Why an image could not be encoded.
pub enum ImageFault {
    /// The buffer holds fewer bytes than its size needs.
    WrongSize { width: u32, height: u32 },
    /// The encoder refused the image.
    Encoder(image::ImageError),
}

impl ImageFault {
    /// The fault as a sentence, where this library can say it.
    pub fn message(&self) -> (m: Option<String>)
        ensures
            self matches ImageFault::WrongSize { width, height } ==> (m matches Some(s) && s@
                == "image buffer is the wrong size for "@ + crate::text::decimal(width as nat) + "x"@
                + crate::text::decimal(height as nat)),
            self is Encoder ==> m is None,
    {
        match self {
            ImageFault::WrongSize { width, height } => {
                let mut s = String::new();
                crate::text::push_str(&mut s, "image buffer is the wrong size for ");
                crate::text::push_str(&mut s, crate::text::decimal_string(*width as u64).as_str());
                crate::text::push_str(&mut s, "x");
                crate::text::push_str(&mut s, crate::text::decimal_string(*height as u64).as_str());
                Some(s)
            },
            ImageFault::Encoder(_) => None,
        }
    }
}

impl Rgb {
    /// Encode as PNG in memory: the bytes a protocol sends, rather than a
    /// file to read back. The pixels are the first `3 * width * height`
    /// bytes of the buffer; a shorter buffer is refused.
    pub fn to_png(&self) -> (r: Result<Vec<u8>, ImageFault>)
        ensures
            self.data@.len() < 3 * (self.width * self.height) ==> (r matches Err(ImageFault::WrongSize { width, height })
                && width == self.width && height == self.height),
            self.data@.len() >= 3 * (self.width * self.height) ==> {
                let px = self.data@.subrange(0, 3 * (self.width * self.height));
                &&& r is Ok <==> png_encoding(self.width, self.height, px) is Some
                &&& r matches Ok(v) ==> png_encoding(self.width, self.height, px) == Some(v@)
                &&& r matches Err(e) ==> e is Encoder
            },
    {
        proof {
            let (w, h) = (self.width as int, self.height as int);
            assert(w * h <= u64::MAX) by (nonlinear_arith)
                requires
                    0 <= w <= u32::MAX,
                    0 <= h <= u32::MAX,
            ;
        }
        let need = (self.width as u64) * (self.height as u64);
        if need > (self.data.len() as u64) / 3 {
            return Err(ImageFault::WrongSize { width: self.width, height: self.height });
        }
        let n = (3 * need) as usize;
        let (px, _rest) = self.data.as_slice().split_at(n);
        match encode_png(px, self.width, self.height) {
            Ok(v) => Ok(v),
            Err(e) => Err(ImageFault::Encoder(e)),
        }
    }

    /// Encode as lossless WebP in memory: the same pixels as PNG in fewer
    /// bytes, which is what an image in a tool reply is sent as.
    pub fn to_webp(&self) -> (r: Result<Vec<u8>, ImageFault>)
        requires
            self.wf(),
        ensures
            r is Ok <==> webp_encoding(self.width, self.height, self.data@) is Some,
            r matches Ok(v) ==> webp_encoding(self.width, self.height, self.data@) == Some(v@),
            r matches Err(e) ==> e is Encoder,
    {
        match encode_webp(self.data.as_slice(), self.width, self.height) {
            Ok(v) => Ok(v),
            Err(e) => Err(ImageFault::Encoder(e)),
        }
    }
}

/// Sub-pixel steps per pixel in the rasteriser's fixed-point corners.
pub const SUBPIXEL: i64 = 256;

/// Twice the signed area of `a b p`, exact on the fixed-point grid.
pub open spec fn edge_spec(a: [i64; 2], b: [i64; 2], p: [i64; 2]) -> int {
    (b[0] - a[0]) * (p[1] - a[1]) - (b[1] - a[1]) * (p[0] - a[0])
}

/// Twice the signed area of `a b p`. The rasteriser keeps its corners
/// within 2^30 of the origin so that nothing here overflows.
pub fn edge(a: [i64; 2], b: [i64; 2], p: [i64; 2]) -> (r: i64)
    requires
        i64::MIN <= b[0] - a[0] <= i64::MAX,
        i64::MIN <= p[1] - a[1] <= i64::MAX,
        i64::MIN <= b[1] - a[1] <= i64::MAX,
        i64::MIN <= p[0] - a[0] <= i64::MAX,
        i64::MIN <= (b[0] - a[0]) * (p[1] - a[1]) <= i64::MAX,
        i64::MIN <= (b[1] - a[1]) * (p[0] - a[0]) <= i64::MAX,
        i64::MIN <= edge_spec(a, b, p) <= i64::MAX,
    ensures
        r == edge_spec(a, b, p),
{
    (b[0] - a[0]) * (p[1] - a[1]) - (b[1] - a[1]) * (p[0] - a[0])
}

/// 0 when a sample exactly on edge `a → b` of a positively wound triangle
/// belongs to it, -1 when it belongs to the neighbour across the edge.
pub open spec fn bias_spec(a: [i64; 2], b: [i64; 2]) -> int {
    let dx = b[0] - a[0];
    let dy = b[1] - a[1];
    if dy < 0 || (dy == 0 && dx > 0) { 0 } else { -1 }
}

/// The top-left fill rule for one edge.
pub fn top_left_bias(a: [i64; 2], b: [i64; 2]) -> (r: i64)
    requires
        i64::MIN <= b[0] - a[0] <= i64::MAX,
        i64::MIN <= b[1] - a[1] <= i64::MAX,
    ensures
        r == bias_spec(a, b),
{
    let dx = b[0] - a[0];
    let dy = b[1] - a[1];
    if dy < 0 || (dy == 0 && dx > 0) {
        0
    } else {
        -1
    }
}

/// The top-left rule gives every edge shared by two triangles to exactly
/// one of them: reversed, an edge answers the other way.
pub proof fn lemma_bias_is_exclusive(a: [i64; 2], b: [i64; 2])
    requires
        a[0] != b[0] || a[1] != b[1],
    ensures
        (bias_spec(a, b) == 0) != (bias_spec(b, a) == 0),
{
}

/// The wrapping steps of the "pcg2d" hash (Jarzynski and Olano, "Hash
/// Functions for GPU Rendering", 2020), keeping the first word.
pub open spec fn pcg2d_spec(x0: u32, y0: u32) -> u32 {
    let x1 = wadd(wmul(x0, 1664525), 1013904223);
    let y1 = wadd(wmul(y0, 1664525), 1013904223);
    let x2 = wadd(x1, wmul(y1, 1664525));
    let y2 = wadd(y1, wmul(x2, 1664525));
    let x3 = x2 ^ (x2 >> 16);
    let y3 = y2 ^ (y2 >> 16);
    let x4 = wadd(x3, wmul(y3, 1664525));
    x4 ^ (x4 >> 16)
}

/// `x + y` modulo 2^32.
pub open spec fn wadd(x: u32, y: u32) -> u32 {
    vstd::wrapping::u32_specs::wrapping_add(x, y)
}

/// `x * y` modulo 2^32.
pub open spec fn wmul(x: u32, y: u32) -> u32 {
    vstd::wrapping::u32_specs::wrapping_mul(x, y)
}

/// A 2-D integer hash: the noise the occlusion pass rotates its kernel by,
/// the same for the same pixel on every run.
pub fn pcg2d(x: u32, y: u32) -> (r: u32)
    ensures
        r == pcg2d_spec(x, y),
{
    let mut x = x;
    let mut y = y;
    x = x.wrapping_mul(1664525).wrapping_add(1013904223);
    y = y.wrapping_mul(1664525).wrapping_add(1013904223);
    x = x.wrapping_add(y.wrapping_mul(1664525));
    y = y.wrapping_add(x.wrapping_mul(1664525));
    x = x ^ (x >> 16);
    y = y ^ (y >> 16);
    x = x.wrapping_add(y.wrapping_mul(1664525));
    x = x ^ (x >> 16);
    x
}

/// Whether pixel (`a`, `b`) lies in an inked cell, (`col`, `row`) of the
/// `k`-th character of `text`, drawn with its top-left at (`x`, `y`), each
/// cell `scale` pixels square and each character `advance` cells on from
/// the one before.
pub open spec fn hit(
    font: &Font,
    x: int,
    y: int,
    text: Seq<char>,
    scale: int,
    a: int,
    b: int,
    k: int,
    row: int,
    col: int,
) -> bool {
    &&& 0 <= k < text.len()
    &&& font.ink(text[k], col, row)
    &&& x + k * (font.advance() * scale) + col * scale <= a < x + k * (font.advance() * scale) + col * scale + scale
    &&& y + row * scale <= b < y + row * scale + scale
}

/// Whether `text` drawn at (`x`, `y`) puts ink on pixel (`a`, `b`).
pub open spec fn inked(font: &Font, x: int, y: int, text: Seq<char>, scale: int, a: int, b: int) -> bool {
    exists|k: int, row: int, col: int| #[trigger] hit(font, x, y, text, scale, a, b, k, row, col)
}

/// Cell (`k`, `row`, `col`) is drawn before cell (`kk`, `rr`, `cc`).
pub open spec fn before(k: int, row: int, col: int, kk: int, rr: int, cc: int) -> bool {
    k < kk || (k == kk && (row < rr || (row == rr && col < cc)))
}

/// Whether a cell drawn before (`kk`, `rr`, `cc`) puts ink on (`a`, `b`).
pub open spec fn covered(
    font: &Font,
    x: int,
    y: int,
    text: Seq<char>,
    scale: int,
    a: int,
    b: int,
    kk: int,
    rr: int,
    cc: int,
) -> bool {
    exists|k: int, row: int, col: int| #[trigger] hit(font, x, y, text, scale, a, b, k, row, col) && before(k, row, col, kk, rr, cc)
}

proof fn lemma_cell_inside(w: int, adv: int, n: int, k: int, col: int, s: int)
    by (nonlinear_arith)
    requires
        0 <= k < n,
        0 <= col < w,
        w <= adv,
        s >= 0,
    ensures
        0 <= k * (adv * s) + col * s,
        k * (adv * s) + col * s + s <= n * (adv * s),
{
    assert(k * (adv * s) + col * s + s <= k * (adv * s) + w * s);
    assert(k * (adv * s) + w * s <= k * (adv * s) + adv * s);
    assert(k * (adv * s) + adv * s == (k + 1) * (adv * s));
    assert((k + 1) * (adv * s) <= n * (adv * s));
}

proof fn lemma_row_inside(h: int, row: int, s: int)
    by (nonlinear_arith)
    requires
        0 <= row < h,
        s >= 0,
    ensures
        0 <= row * s,
        row * s + s <= h * s,
{
}

/// A label's ink never falls outside its plate: every glyph cell lies
/// within the text's extent, and the plate is that extent with a margin.
pub proof fn lemma_ink_stays_on_the_plate(font: &Font, x: int, y: int, text: Seq<char>, scale: nat, a: int, b: int)
    requires
        inked(font, x + 2 * scale, y + 2 * scale, text, scale as int, a, b),
    ensures
        x <= a < x + font.text_width_spec(text.len(), scale) + 4 * scale,
        y <= b < y + font.text_height_spec(scale) + 4 * scale,
{
    let (k, row, col) = choose|k: int, row: int, col: int|
        #[trigger] hit(font, x + 2 * scale, y + 2 * scale, text, scale as int, a, b, k, row, col);
    assert(font.ink(text[k], col, row));
    lemma_cell_inside(font.width as int, font.advance(), text.len() as int, k, col, scale as int);
    lemma_row_inside(font.height as int, row, scale as int);
}

proof fn lemma_next_cell(font: &Font, x: int, y: int, text: Seq<char>, scale: int, a: int, b: int, kk: int, rr: int, cc: int)
    ensures
        covered(font, x, y, text, scale, a, b, kk, rr, cc + 1) == (covered(font, x, y, text, scale, a, b, kk, rr, cc)
            || hit(font, x, y, text, scale, a, b, kk, rr, cc)),
{
    if covered(font, x, y, text, scale, a, b, kk, rr, cc + 1) {
        let (k, row, col) = choose|k: int, row: int, col: int| #[trigger] hit(font, x, y, text, scale, a, b, k, row, col) && before(k, row, col, kk, rr, cc + 1);
        if !before(k, row, col, kk, rr, cc) {
            assert(k == kk && row == rr && col == cc);
        }
    }
    if hit(font, x, y, text, scale, a, b, kk, rr, cc) {
        assert(before(kk, rr, cc, kk, rr, cc + 1));
    }
    if covered(font, x, y, text, scale, a, b, kk, rr, cc) {
        let (k, row, col) = choose|k: int, row: int, col: int| #[trigger] hit(font, x, y, text, scale, a, b, k, row, col) && before(k, row, col, kk, rr, cc);
        assert(before(k, row, col, kk, rr, cc + 1));
    }
}

proof fn lemma_next_row(font: &Font, x: int, y: int, text: Seq<char>, scale: int, a: int, b: int, kk: int, rr: int)
    ensures
        covered(font, x, y, text, scale, a, b, kk, rr, font.width as int) == covered(font, x, y, text, scale, a, b, kk, rr + 1, 0),
{
    if covered(font, x, y, text, scale, a, b, kk, rr, font.width as int) {
        let (k, row, col) = choose|k: int, row: int, col: int| #[trigger] hit(font, x, y, text, scale, a, b, k, row, col) && before(k, row, col, kk, rr, font.width as int);
        assert(before(k, row, col, kk, rr + 1, 0));
    }
    if covered(font, x, y, text, scale, a, b, kk, rr + 1, 0) {
        let (k, row, col) = choose|k: int, row: int, col: int| #[trigger] hit(font, x, y, text, scale, a, b, k, row, col) && before(k, row, col, kk, rr + 1, 0);
        assert(before(k, row, col, kk, rr, font.width as int));
    }
}

proof fn lemma_next_char(font: &Font, x: int, y: int, text: Seq<char>, scale: int, a: int, b: int, kk: int)
    ensures
        covered(font, x, y, text, scale, a, b, kk, font.height as int, 0) == covered(font, x, y, text, scale, a, b, kk + 1, 0, 0),
{
    if covered(font, x, y, text, scale, a, b, kk, font.height as int, 0) {
        let (k, row, col) = choose|k: int, row: int, col: int| #[trigger] hit(font, x, y, text, scale, a, b, k, row, col) && before(k, row, col, kk, font.height as int, 0);
        assert(before(k, row, col, kk + 1, 0, 0));
    }
    if covered(font, x, y, text, scale, a, b, kk + 1, 0, 0) {
        let (k, row, col) = choose|k: int, row: int, col: int| #[trigger] hit(font, x, y, text, scale, a, b, k, row, col) && before(k, row, col, kk + 1, 0, 0);
        assert(before(k, row, col, kk, font.height as int, 0));
    }
}

proof fn lemma_ends(font: &Font, x: int, y: int, text: Seq<char>, scale: int, a: int, b: int)
    ensures
        !covered(font, x, y, text, scale, a, b, 0, 0, 0),
        covered(font, x, y, text, scale, a, b, text.len() as int, 0, 0) == inked(font, x, y, text, scale, a, b),
{
    if inked(font, x, y, text, scale, a, b) {
        let (k, row, col) = choose|k: int, row: int, col: int| #[trigger] hit(font, x, y, text, scale, a, b, k, row, col);
        assert(before(k, row, col, text.len() as int, 0, 0));
    }
}

impl Rgb {
    /// Draw `text` with its top-left at (`x`, `y`), each font cell `scale`
    /// pixels square; ink off the image is dropped.
    pub fn text(&mut self, font: &Font, x: u32, y: u32, text: &str, scale: u32, color: [u8; 3])
        requires
            old(self).wf(),
            (font.width + font.tracking) * scale <= u32::MAX,
            x + text@.len() * ((font.width + font.tracking) * scale) <= u32::MAX,
            y + font.height * scale <= u32::MAX,
        ensures
            final(self).wf(),
            final(self).width == old(self).width,
            final(self).height == old(self).height,
            forall|a: int, b: int|
                0 <= a < old(self).width && 0 <= b < old(self).height ==> #[trigger] final(self).pixel(a, b) == if inked(
                    font,
                    x as int,
                    y as int,
                    text@,
                    scale as int,
                    a,
                    b,
                ) {
                    color@
                } else {
                    old(self).pixel(a, b)
                },
    {
        let ghost before_img = *self;
        let ghost t = text@;
        let ghost xi = x as int;
        let ghost yi = y as int;
        let ghost si = scale as int;
        let cs = chars_of(text);
        let n = cs.len();
        let advance: u64 = font.width as u64 + font.tracking as u64;
        let step = (advance * (scale as u64)) as u32;
        let w = self.width;
        let h = self.height;
        let mut pen: u32 = x;
        let mut k: usize = 0;
        proof {
            assert forall|a: int, b: int| 0 <= a < w && 0 <= b < h implies !covered(font, xi, yi, t, si, a, b, 0, 0, 0) by {
                lemma_ends(font, xi, yi, t, si, a, b);
            }
        }
        while k < n
            invariant
                self.wf(),
                self.width == w,
                self.height == h,
                before_img.width == w,
                before_img.height == h,
                xi == x as int,
                yi == y as int,
                si == scale as int,
                cs@ == t,
                n == t.len(),
                k <= n,
                step == font.advance() * si,
                pen == xi + k * step,
                xi + n * step <= u32::MAX,
                yi + font.height * si <= u32::MAX,
                forall|a: int, b: int|
                    0 <= a < w && 0 <= b < h ==> #[trigger] self.pixel(a, b) == if covered(font, xi, yi, t, si, a, b, k as int, 0, 0) {
                        color@
                    } else {
                        before_img.pixel(a, b)
                    },
            decreases n - k,
        {
            let ch = cs[k];
            proof {
                assert(xi + (k + 1) * step <= xi + n * step) by (nonlinear_arith)
                    requires
                        k + 1 <= n,
                        step >= 0,
                ;
                assert((k + 1) * step == k * step + step) by (nonlinear_arith);
                assert(font.width * si <= step) by (nonlinear_arith)
                    requires
                        step == (font.width + font.tracking) * si,
                        si >= 0,
                ;
            }
            let mut row: u32 = 0;
            let mut rs: u32 = 0;
            while row < font.height
                invariant
                    self.wf(),
                    self.width == w,
                    self.height == h,
                    before_img.width == w,
                    before_img.height == h,
                    xi == x as int,
                    yi == y as int,
                    si == scale as int,
                    cs@ == t,
                    n == t.len(),
                    k < n,
                    ch == t[k as int],
                    step == font.advance() * si,
                    pen == xi + k * step,
                    pen + step <= u32::MAX,
                    font.width * si <= step,
                    row <= font.height,
                    rs == row * si,
                    yi + font.height * si <= u32::MAX,
                    forall|a: int, b: int|
                        0 <= a < w && 0 <= b < h ==> #[trigger] self.pixel(a, b) == if covered(font, xi, yi, t, si, a, b, k as int, row as int, 0) {
                            color@
                        } else {
                            before_img.pixel(a, b)
                        },
                decreases font.height - row,
            {
                proof {
                    assert(yi + (row + 1) * si <= yi + font.height * si) by (nonlinear_arith)
                        requires
                            row + 1 <= font.height,
                            si >= 0,
                    ;
                    assert((row + 1) * si == row * si + si) by (nonlinear_arith);
                }
                let mut col: u32 = 0;
                let mut ccs: u32 = 0;
                while col < font.width
                    invariant
                        self.wf(),
                        self.width == w,
                        self.height == h,
                        before_img.width == w,
                        before_img.height == h,
                        xi == x as int,
                        yi == y as int,
                        si == scale as int,
                        cs@ == t,
                        n == t.len(),
                        k < n,
                        ch == t[k as int],
                        step == font.advance() * si,
                        pen == xi + k * step,
                        pen + step <= u32::MAX,
                        font.width * si <= step,
                        row < font.height,
                        rs == row * si,
                        y + rs + si <= u32::MAX,
                        col <= font.width,
                        ccs == col * si,
                        forall|a: int, b: int|
                            0 <= a < w && 0 <= b < h ==> #[trigger] self.pixel(a, b) == if covered(font, xi, yi, t, si, a, b, k as int, row as int, col as int) {
                                color@
                            } else {
                                before_img.pixel(a, b)
                            },
                    decreases font.width - col,
                {
                    proof {
                        assert(ccs + si <= font.width * si) by (nonlinear_arith)
                            requires
                                col + 1 <= font.width,
                                ccs == col * si,
                                si >= 0,
                        ;
                        assert((col + 1) * si == col * si + si) by (nonlinear_arith);
                    }
                    if font.pixel(ch, col, row) {
                        let ghost mid = *self;
                        self.rect(pen + ccs, y + rs, pen + ccs + scale, y + rs + scale, color);
                        proof {
                            assert forall|a: int, b: int| 0 <= a < w && 0 <= b < h implies #[trigger] self.pixel(a, b) == if covered(font, xi, yi, t, si, a, b, k as int, row as int, col + 1) {
                                color@
                            } else {
                                before_img.pixel(a, b)
                            } by {
                                lemma_next_cell(font, xi, yi, t, si, a, b, k as int, row as int, col as int);
                                assert(xi + k * (font.advance() * si) + col * si == pen + ccs);
                            }
                        }
                    } else {
                        proof {
                            assert forall|a: int, b: int| 0 <= a < w && 0 <= b < h implies #[trigger] self.pixel(a, b) == if covered(font, xi, yi, t, si, a, b, k as int, row as int, col + 1) {
                                color@
                            } else {
                                before_img.pixel(a, b)
                            } by {
                                lemma_next_cell(font, xi, yi, t, si, a, b, k as int, row as int, col as int);
                                assert(!hit(font, xi, yi, t, si, a, b, k as int, row as int, col as int));
                            }
                        }
                    }
                    col = col + 1;
                    ccs = ccs + scale;
                }
                proof {
                    assert forall|a: int, b: int| 0 <= a < w && 0 <= b < h implies #[trigger] self.pixel(a, b) == if covered(font, xi, yi, t, si, a, b, k as int, row + 1, 0) {
                        color@
                    } else {
                        before_img.pixel(a, b)
                    } by {
                        lemma_next_row(font, xi, yi, t, si, a, b, k as int, row as int);
                    }
                }
                row = row + 1;
                rs = rs + scale;
            }
            proof {
                assert forall|a: int, b: int| 0 <= a < w && 0 <= b < h implies #[trigger] self.pixel(a, b) == if covered(font, xi, yi, t, si, a, b, k + 1, 0, 0) {
                    color@
                } else {
                    before_img.pixel(a, b)
                } by {
                    lemma_next_char(font, xi, yi, t, si, a, b, k as int);
                }
            }
            k = k + 1;
            pen = pen + step;
        }
        proof {
            assert forall|a: int, b: int| 0 <= a < w && 0 <= b < h implies #[trigger] self.pixel(a, b) == if inked(font, xi, yi, t, si, a, b) {
                color@
            } else {
                before_img.pixel(a, b)
            } by {
                lemma_ends(font, xi, yi, t, si, a, b);
            }
        }
    }
}

impl Rgb {
    /// Draw `text` over a filled plate, so a label stays readable whatever
    /// is behind it: the plate is the text's extent with `2 * scale` pixels
    /// of margin on every side, and the text sits inside the margin.
    pub fn label(&mut self, font: &Font, x: u32, y: u32, text: &str, scale: u32, ink: [u8; 3], plate: [u8; 3])
        requires
            old(self).wf(),
            (font.width + font.tracking) * scale <= u32::MAX,
            x + text@.len() * ((font.width + font.tracking) * scale) + 4 * scale <= u32::MAX,
            y + font.height * scale + 4 * scale <= u32::MAX,
        ensures
            final(self).wf(),
            final(self).width == old(self).width,
            final(self).height == old(self).height,
            forall|a: int, b: int|
                0 <= a < old(self).width && 0 <= b < old(self).height ==> #[trigger] final(self).pixel(a, b) == if inked(
                    font,
                    x + 2 * scale,
                    y + 2 * scale,
                    text@,
                    scale as int,
                    a,
                    b,
                ) {
                    ink@
                } else if x <= a < x + font.text_width_spec(text@.len(), scale as nat) + 4 * scale && y <= b < y
                    + font.text_height_spec(scale as nat) + 4 * scale {
                    plate@
                } else {
                    old(self).pixel(a, b)
                },
    {
        let cs = chars_of(text);
        let n = cs.len();
        let advance: u64 = font.width as u64 + font.tracking as u64;
        let step = advance * (scale as u64);
        proof {
            assert(n * step <= x + n * step) by (nonlinear_arith)
                requires
                    x >= 0,
            ;
            assert((font.height as int) * (scale as int) <= u32::MAX);
        }
        let w = (n as u64 * step) as u32;
        let h = font.height * scale;
        let pad = 2 * scale;
        self.rect(x, y, x + w + 2 * pad, y + h + 2 * pad, plate);
        proof {
            assert(x + 2 * scale + n * step <= u32::MAX);
        }
        self.text(font, x + pad, y + pad, text, scale, ink);
    }
}

/// What a sheet shows where no view is drawn.
pub const BACKGROUND: [u8; 3] = [22, 24, 28];

/// The colour between the panels of a sheet.
pub const GUTTER: [u8; 3] = [44, 47, 54];

/// Where one view sits in a contact sheet, so a pixel of the sheet can be
/// traced back to a view and probed.
pub struct Panel {
    pub view: crate::service::View,
    pub x: u32,
    pub y: u32,
    pub size: u32,
}

/// One image holding every standard view: panels in contact-sheet order,
/// row-major, four across, two pixels of gutter around each.
pub struct ContactSheet {
    pub image: Rgb,
    pub panels: Vec<Panel>,
}

/// The left edge of cell `i` of a sheet whose cells are `cell` pixels.
pub open spec fn cell_x(i: int, cell: int) -> int {
    if i % 4 == 0 {
        2
    } else if i % 4 == 1 {
        4 + cell
    } else if i % 4 == 2 {
        6 + 2 * cell
    } else {
        8 + 3 * cell
    }
}

/// The top edge of cell `i`.
pub open spec fn cell_y(i: int, cell: int) -> int {
    if i < 4 {
        2
    } else {
        4 + cell
    }
}

/// Whether (`a`, `b`) lies in cell `i`.
pub open spec fn in_cell(i: int, cell: int, a: int, b: int) -> bool {
    cell_x(i, cell) <= a < cell_x(i, cell) + cell && cell_y(i, cell) <= b < cell_y(i, cell) + cell
}

/// The colour of (`a`, `b`) on a sheet of these panels: the panel's own
/// pixel in a drawn cell, the background in the cell no view fills, the
/// gutter everywhere else.
pub open spec fn sheet_pixel(panels: Seq<Rgb>, cell: int, a: int, b: int) -> Seq<u8> {
    if in_cell(0, cell, a, b) {
        panels[0].pixel(a - cell_x(0, cell), b - cell_y(0, cell))
    } else if in_cell(1, cell, a, b) {
        panels[1].pixel(a - cell_x(1, cell), b - cell_y(1, cell))
    } else if in_cell(2, cell, a, b) {
        panels[2].pixel(a - cell_x(2, cell), b - cell_y(2, cell))
    } else if in_cell(3, cell, a, b) {
        panels[3].pixel(a - cell_x(3, cell), b - cell_y(3, cell))
    } else if in_cell(4, cell, a, b) {
        panels[4].pixel(a - cell_x(4, cell), b - cell_y(4, cell))
    } else if in_cell(5, cell, a, b) {
        panels[5].pixel(a - cell_x(5, cell), b - cell_y(5, cell))
    } else if in_cell(6, cell, a, b) {
        panels[6].pixel(a - cell_x(6, cell), b - cell_y(6, cell))
    } else if in_cell(7, cell, a, b) {
        BACKGROUND@
    } else {
        GUTTER@
    }
}

/// The colour of (`a`, `b`) once the first `i` panels are drawn.
pub open spec fn partial_pixel(panels: Seq<Rgb>, cell: int, i: int, a: int, b: int) -> Seq<u8> {
    if 0 < i && in_cell(0, cell, a, b) {
        panels[0].pixel(a - cell_x(0, cell), b - cell_y(0, cell))
    } else if 1 < i && in_cell(1, cell, a, b) {
        panels[1].pixel(a - cell_x(1, cell), b - cell_y(1, cell))
    } else if 2 < i && in_cell(2, cell, a, b) {
        panels[2].pixel(a - cell_x(2, cell), b - cell_y(2, cell))
    } else if 3 < i && in_cell(3, cell, a, b) {
        panels[3].pixel(a - cell_x(3, cell), b - cell_y(3, cell))
    } else if 4 < i && in_cell(4, cell, a, b) {
        panels[4].pixel(a - cell_x(4, cell), b - cell_y(4, cell))
    } else if 5 < i && in_cell(5, cell, a, b) {
        panels[5].pixel(a - cell_x(5, cell), b - cell_y(5, cell))
    } else if 6 < i && in_cell(6, cell, a, b) {
        panels[6].pixel(a - cell_x(6, cell), b - cell_y(6, cell))
    } else {
        GUTTER@
    }
}

fn view_at(i: usize) -> (v: crate::service::View)
    requires
        i < 7,
    ensures
        v == all_views()[i as int],
{
    if i == 0 {
        crate::service::View::Iso
    } else if i == 1 {
        crate::service::View::Front
    } else if i == 2 {
        crate::service::View::Right
    } else if i == 3 {
        crate::service::View::Top
    } else if i == 4 {
        crate::service::View::Back
    } else if i == 5 {
        crate::service::View::Left
    } else {
        crate::service::View::Bottom
    }
}

/// The ink of a panel's caption, and of the scale bar.
pub const LABEL_INK: [u8; 3] = [235, 238, 244];

/// The plate under a panel's caption.
pub const LABEL_PLATE: [u8; 3] = [44, 47, 54];

/// A view's caption on its panel: its name in capitals.
pub open spec fn caption_spec(view: crate::service::View) -> Seq<char> {
    match view {
        crate::service::View::Iso => "ISO"@,
        crate::service::View::Front => "FRONT"@,
        crate::service::View::Right => "RIGHT"@,
        crate::service::View::Top => "TOP"@,
        crate::service::View::Back => "BACK"@,
        crate::service::View::Left => "LEFT"@,
        crate::service::View::Bottom => "BOTTOM"@,
    }
}

/// A view's caption on its panel.
pub fn caption(view: crate::service::View) -> (s: &'static str)
    ensures
        s@ == caption_spec(view),
{
    match view {
        crate::service::View::Iso => "ISO",
        crate::service::View::Front => "FRONT",
        crate::service::View::Right => "RIGHT",
        crate::service::View::Top => "TOP",
        crate::service::View::Back => "BACK",
        crate::service::View::Left => "LEFT",
        crate::service::View::Bottom => "BOTTOM",
    }
}

/// The scale labels are drawn at on a panel `cell` pixels square: one font
/// cell per pixel up to 160 pixels, one more for every 160 after.
pub open spec fn label_scale_spec(cell: u32) -> u32 {
    if cell / 160 >= 1 {
        cell / 160
    } else {
        1
    }
}

/// The scale labels are drawn at on a panel `cell` pixels square.
pub fn label_scale(cell: u32) -> (s: u32)
    ensures
        s == label_scale_spec(cell),
{
    let s = cell / 160;
    if s >= 1 {
        s
    } else {
        1
    }
}

/// Caption a rendered panel with its view's name, on a plate in its top-left
/// corner, three label scales in from each edge.
pub fn label_panel(panel: &mut Rgb, font: &Font, view: crate::service::View, cell: u32)
    requires
        old(panel).wf(),
        (font.width + font.tracking) * label_scale_spec(cell) <= u32::MAX,
        7 * label_scale_spec(cell) + 6 * ((font.width + font.tracking) * label_scale_spec(cell)) <= u32::MAX,
        7 * label_scale_spec(cell) + font.height * label_scale_spec(cell) <= u32::MAX,
    ensures
        ({
            let s = label_scale_spec(cell);
            let text = caption_spec(view);
            &&& final(panel).wf()
            &&& final(panel).width == old(panel).width
            &&& final(panel).height == old(panel).height
            &&& forall|a: int, b: int|
                0 <= a < old(panel).width && 0 <= b < old(panel).height ==> #[trigger] final(panel).pixel(a, b) == if inked(
                    font,
                    3 * s + 2 * s,
                    3 * s + 2 * s,
                    text,
                    s as int,
                    a,
                    b,
                ) {
                    LABEL_INK@
                } else if 3 * s <= a < 3 * s + font.text_width_spec(text.len(), s as nat) + 4 * s && 3 * s <= b < 3 * s
                    + font.text_height_spec(s as nat) + 4 * s {
                    LABEL_PLATE@
                } else {
                    old(panel).pixel(a, b)
                }
        }),
{
    let s = label_scale(cell);
    let text = caption(view);
    proof {
        assert(text@.len() <= 6) by {
            reveal_strlit("ISO");
            reveal_strlit("FRONT");
            reveal_strlit("RIGHT");
            reveal_strlit("TOP");
            reveal_strlit("BACK");
            reveal_strlit("LEFT");
            reveal_strlit("BOTTOM");
        }
        let step = (font.width + font.tracking) * s;
        assert(text@.len() * step <= 6 * step) by (nonlinear_arith)
            requires
                text@.len() <= 6,
                step >= 0,
        ;
    }
    panel.label(font, 3 * s, 3 * s, text, s, LABEL_INK, LABEL_PLATE);
}

fn cell_origin(i: usize, cell: u32) -> (r: (u32, u32))
    requires
        i < 8,
        cell <= 0x4000,
    ensures
        r.0 == cell_x(i as int, cell as int),
        r.1 == cell_y(i as int, cell as int),
{
    let col = (i % 4) as u32;
    let x = if col == 0 {
        2
    } else if col == 1 {
        4 + cell
    } else if col == 2 {
        6 + 2 * cell
    } else {
        8 + 3 * cell
    };
    let y = if i < 4 { 2 } else { 4 + cell };
    (x, y)
}

/// Lay the seven rendered views out in one image, each panel `cell` pixels
/// square and already captioned (`label_panel`) and given its scale bar,
/// and say where each one went.
pub fn contact_sheet(panels: &Vec<Rgb>, cell: u32) -> (sheet: ContactSheet)
    requires
        panels@.len() == 7,
        3 * ((4 * cell + 10) * (2 * cell + 6)) <= u32::MAX,
        forall|i: int| 0 <= i < 7 ==> (#[trigger] panels@[i]).wf() && panels@[i].width == cell && panels@[i].height == cell,
    ensures
        sheet.image.wf(),
        sheet.image.width == 4 * cell + 10,
        sheet.image.height == 2 * cell + 6,
        sheet.panels@.len() == 7,
        forall|i: int|
            0 <= i < 7 ==> (#[trigger] sheet.panels@[i]).view == all_views()[i] && sheet.panels@[i].x == cell_x(i, cell as int)
                && sheet.panels@[i].y == cell_y(i, cell as int) && sheet.panels@[i].size == cell,
        forall|a: int, b: int|
            0 <= a < sheet.image.width && 0 <= b < sheet.image.height ==> #[trigger] sheet.image.pixel(a, b) == sheet_pixel(
                panels@,
                cell as int,
                a,
                b,
            ),
{
    proof {
        assert(cell <= 0x4000) by (nonlinear_arith)
            requires
                3 * ((4 * cell + 10) * (2 * cell + 6)) <= u32::MAX,
        ;
    }
    let width = 4 * cell + 10;
    let height = 2 * cell + 6;
    proof {
        assert(3 * (width * height) <= u32::MAX) by (nonlinear_arith)
            requires
                width == 4 * cell + 10,
                height == 2 * cell + 6,
                3 * ((4 * cell + 10) * (2 * cell + 6)) <= u32::MAX,
        ;
    }
    let mut image = Rgb::new(width, height, GUTTER);
    let mut placed: Vec<Panel> = Vec::new();
    let mut i: usize = 0;
    while i < 7
        invariant
            i <= 7,
            panels@.len() == 7,
            cell <= 0x4000,
            forall|j: int| 0 <= j < 7 ==> (#[trigger] panels@[j]).wf() && panels@[j].width == cell && panels@[j].height == cell,
            image.wf(),
            image.width == width,
            image.height == height,
            width == 4 * cell + 10,
            height == 2 * cell + 6,
            placed@.len() == i,
            forall|j: int|
                0 <= j < i ==> (#[trigger] placed@[j]).view == all_views()[j] && placed@[j].x == cell_x(j, cell as int)
                    && placed@[j].y == cell_y(j, cell as int) && placed@[j].size == cell,
            forall|a: int, b: int|
                0 <= a < width && 0 <= b < height ==> #[trigger] image.pixel(a, b) == partial_pixel(panels@, cell as int, i as int, a, b),
        decreases 7 - i,
    {
        let (x, y) = cell_origin(i, cell);
        let ghost before = image;
        image.blit(&panels[i], x, y);
        proof {
            assert forall|a: int, b: int| 0 <= a < width && 0 <= b < height implies #[trigger] image.pixel(a, b) == partial_pixel(
                panels@,
                cell as int,
                i + 1,
                a,
                b,
            ) by {
                assert(before.pixel(a, b) == partial_pixel(panels@, cell as int, i as int, a, b));
            }
        }
        placed.push(Panel { view: view_at(i), x, y, size: cell });
        i = i + 1;
    }
    let (x, y) = cell_origin(7, cell);
    let ghost before = image;
    image.rect(x, y, x + cell, y + cell, BACKGROUND);
    proof {
        assert forall|a: int, b: int| 0 <= a < width && 0 <= b < height implies #[trigger] image.pixel(a, b) == sheet_pixel(
            panels@,
            cell as int,
            a,
            b,
        ) by {
            assert(before.pixel(a, b) == partial_pixel(panels@, cell as int, 7, a, b));
        }
    }
    ContactSheet { image, panels: placed }
}

} // verus!
