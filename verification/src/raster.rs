//! RGBA rasters: the target, the canvas, fragment silhouettes and stamps.
//!
//! A raster stores four bytes per pixel (red, green, blue, alpha), row by
//! row from the top. Contracts speak of its view, a `Picture`.

use vstd::prelude::*;

verus! {

/// A colour with its opacity, one byte per channel.
#[derive(Clone, Copy, Debug, PartialEq, Eq, Structural)]
pub struct Rgba {
    pub r: u8,
    pub g: u8,
    pub b: u8,
    pub a: u8,
}

/// What a raster holds: its dimensions and its bytes, four per pixel, row by
/// row.
pub struct Picture {
    pub width: nat,
    pub height: nat,
    pub bytes: Seq<u8>,
}

impl Picture {
    /// The bytes are exactly those of `width * height` pixels.
    pub open spec fn well_formed(self) -> bool {
        self.bytes.len() == 4 * self.width * self.height
    }

    /// `(x, y)` is a pixel of the picture.
    pub open spec fn holds(self, x: int, y: int) -> bool {
        0 <= x < self.width && 0 <= y < self.height
    }

    /// Where the first byte of pixel `(x, y)` lies.
    pub open spec fn position(self, x: int, y: int) -> int {
        4 * (y * self.width + x)
    }

    /// The pixel in column `x` of row `y`.
    pub open spec fn pixel(self, x: int, y: int) -> Rgba {
        let at = self.position(x, y);
        Rgba { r: self.bytes[at], g: self.bytes[at + 1], b: self.bytes[at + 2], a: self.bytes[at + 3] }
    }

    /// Every pixel is `color`.
    pub open spec fn uniform(self, color: Rgba) -> bool {
        forall|x: int, y: int| self.holds(x, y) ==> #[trigger] self.pixel(x, y) == color
    }

    /// The two pictures have the same dimensions.
    pub open spec fn same_shape(self, other: Picture) -> bool {
        self.width == other.width && self.height == other.height
    }
}

/// The four bytes from `4 * k` on are those of `color`.
spec fn spells(bytes: Seq<u8>, k: int, color: Rgba) -> bool {
    &&& bytes[4 * k] == color.r
    &&& bytes[4 * k + 1] == color.g
    &&& bytes[4 * k + 2] == color.b
    &&& bytes[4 * k + 3] == color.a
}

/// The bytes of a pixel of a well-formed picture lie within its bytes.
pub proof fn lemma_position_bounds(p: Picture, x: int, y: int)
    requires
        p.well_formed(),
        p.holds(x, y),
    ensures
        0 <= p.position(x, y),
        p.position(x, y) + 4 <= p.bytes.len(),
        0 <= y * p.width,
        y * p.width + x < p.width * p.height,
        4 * (p.width * p.height) == p.bytes.len(),
{
    let w = p.width as int;
    let h = p.height as int;
    assert(y * w + x < w * h && 0 <= y * w) by (nonlinear_arith)
        requires
            0 <= x < w,
            0 <= y < h,
    ;
    assert(4 * (w * h) == 4 * w * h) by (nonlinear_arith);
}

/// Two pixels of a picture share no byte.
pub proof fn lemma_position_distinct(p: Picture, x1: int, y1: int, x2: int, y2: int)
    requires
        p.holds(x1, y1),
        p.holds(x2, y2),
        x1 != x2 || y1 != y2,
    ensures
        p.position(x1, y1) + 4 <= p.position(x2, y2) || p.position(x2, y2) + 4 <= p.position(
            x1,
            y1,
        ),
{
    let w = p.width as int;
    if y1 < y2 {
        assert(y1 * w + w <= y2 * w) by (nonlinear_arith)
            requires
                y1 + 1 <= y2,
                w >= 0,
        ;
    } else if y2 < y1 {
        assert(y2 * w + w <= y1 * w) by (nonlinear_arith)
            requires
                y2 + 1 <= y1,
                w >= 0,
        ;
    }
}

/// Two well-formed pictures of one shape with the same pixels are the same
/// picture.
pub proof fn lemma_pixels_fix_picture(p: Picture, q: Picture)
    requires
        p.well_formed(),
        q.well_formed(),
        p.same_shape(q),
        forall|x: int, y: int| p.holds(x, y) ==> #[trigger] p.pixel(x, y) == q.pixel(x, y),
    ensures
        p == q,
{
    let w = p.width as int;
    let h = p.height as int;
    assert(4 * (w * h) == 4 * w * h) by (nonlinear_arith);
    assert forall|i: int| 0 <= i < p.bytes.len() implies p.bytes[i] == q.bytes[i] by {
        let k = i / 4;
        let c = i % 4;
        let y = k / w;
        let x = k % w;
        assert(0 <= k < w * h);
        assert(w > 0) by (nonlinear_arith)
            requires
                0 <= k < w * h,
                w >= 0,
        ;
        vstd::arithmetic::div_mod::lemma_fundamental_div_mod(k, w);
        vstd::arithmetic::div_mod::lemma_div_pos_is_pos(k, w);
        assert(k == w * y + x);
        assert(w * y == y * w) by (nonlinear_arith);
        assert(y < h) by (nonlinear_arith)
            requires
                y * w + x < w * h,
                0 <= x,
                w > 0,
        ;
        assert(p.holds(x, y));
        assert(p.pixel(x, y) == q.pixel(x, y));
        assert(p.position(x, y) == 4 * k);
        assert(q.position(x, y) == 4 * k);
        assert(i == 4 * k + c);
    }
    assert(p.bytes =~= q.bytes);
}

/// The pixel that results where `over`, neither transparent nor opaque, is
/// composited onto `under`: what `blend` of the `image` crate leaves in an
/// `Rgba<u8>` pixel `under` when it is given `over`.
pub uninterp spec fn blended(under: Rgba, over: Rgba) -> Rgba;

/// The pixel that results where `over` is laid on `under`: `under` where
/// `over` is transparent, `over` where it is opaque, their blend otherwise.
pub open spec fn composite(under: Rgba, over: Rgba) -> Rgba {
    if over.a == 0 {
        under
    } else if over.a == 255 {
        over
    } else {
        blended(under, over)
    }
}

impl Picture {
    /// Pixel `(x, y)` of this picture once `top` is laid on it with `top`'s
    /// first pixel at `(left, up)`: composited where `top` covers it, kept
    /// where it does not.
    pub open spec fn overlaid(self, top: Picture, left: int, up: int, x: int, y: int) -> Rgba {
        if top.holds(x - left, y - up) {
            composite(self.pixel(x, y), top.pixel(x - left, y - up))
        } else {
            self.pixel(x, y)
        }
    }

    /// This picture is `under` with `top` laid on it at `(left, up)`.
    pub open spec fn is_overlay(self, under: Picture, top: Picture, left: int, up: int) -> bool {
        &&& self.well_formed()
        &&& self.same_shape(under)
        &&& forall|x: int, y: int|
            under.holds(x, y) ==> #[trigger] self.pixel(x, y) == under.overlaid(top, left, up, x, y)
    }
}

/// One of the four bytes of a colour: red, green, blue, opacity.
pub open spec fn channel(color: Rgba, index: int) -> u8 {
    if index == 0 {
        color.r
    } else if index == 1 {
        color.g
    } else if index == 2 {
        color.b
    } else {
        color.a
    }
}

impl Picture {
    /// This picture with `top` laid on it at `(left, up)`.
    pub open spec fn laid(self, top: Picture, left: int, up: int) -> Picture {
        Picture {
            width: self.width,
            height: self.height,
            bytes: Seq::new(
                self.bytes.len(),
                |i: int|
                    channel(
                        self.overlaid(
                            top,
                            left,
                            up,
                            (i / 4) % (self.width as int),
                            (i / 4) / (self.width as int),
                        ),
                        i % 4,
                    ),
            ),
        }
    }
}

/// `laid` is the overlay: it has the shape of the lower picture and each of
/// its pixels is that pixel with `top` laid on it.
pub proof fn lemma_laid_is_overlay(under: Picture, top: Picture, left: int, up: int)
    requires
        under.well_formed(),
    ensures
        under.laid(top, left, up).is_overlay(under, top, left, up),
{
    let made = under.laid(top, left, up);
    let w = under.width as int;
    assert forall|x: int, y: int| under.holds(x, y) implies #[trigger] made.pixel(x, y)
        == under.overlaid(top, left, up, x, y) by {
        lemma_position_bounds(under, x, y);
        let k = y * w + x;
        let at = made.position(x, y);
        assert(at == 4 * k);
        vstd::arithmetic::div_mod::lemma_fundamental_div_mod_converse(k, w, y, x);
        let color = under.overlaid(top, left, up, x, y);
        assert(made.bytes[at] == channel(color, 0));
        assert(made.bytes[at + 1] == channel(color, 1));
        assert(made.bytes[at + 2] == channel(color, 2));
        assert(made.bytes[at + 3] == channel(color, 3));
    }
}

/// Laying one picture on another has one result.
pub proof fn lemma_overlay_is_unique(
    first: Picture,
    second: Picture,
    under: Picture,
    top: Picture,
    left: int,
    up: int,
)
    requires
        first.is_overlay(under, top, left, up),
        second.is_overlay(under, top, left, up),
    ensures
        first == second,
{
    lemma_pixels_fix_picture(first, second);
}

/// Whatever is the overlay of `top` on a picture is that picture with `top`
/// laid on it.
pub proof fn lemma_overlay_is_laid(
    result: Picture,
    under: Picture,
    top: Picture,
    left: int,
    up: int,
)
    requires
        under.well_formed(),
        result.is_overlay(under, top, left, up),
    ensures
        result == under.laid(top, left, up),
{
    lemma_laid_is_overlay(under, top, left, up);
    lemma_overlay_is_unique(result, under.laid(top, left, up), under, top, left, up);
}

/// An RGBA image of fixed dimensions.
#[derive(Debug, PartialEq, Eq)]
pub struct Raster {
    width: u32,
    height: u32,
    data: Vec<u8>,
}

impl View for Raster {
    type V = Picture;

    closed spec fn view(&self) -> Picture {
        Picture { width: self.width as nat, height: self.height as nat, bytes: self.data@ }
    }
}

impl Clone for Raster {
    fn clone(&self) -> (copy: Raster)
        ensures
            copy@ == self@,
    {
        proof {
            use_type_invariant(self);
        }
        let data = self.data.clone();
        assert(data@ =~= self.data@);
        Raster { width: self.width, height: self.height, data }
    }
}

impl Raster {
    /// Every raster holds exactly the bytes of its pixels.
    #[verifier::type_invariant]
    pub open spec fn sound(&self) -> bool {
        self@.well_formed()
    }

    /// A raster of the given dimensions with every pixel `color`.
    pub fn filled(width: u32, height: u32, color: Rgba) -> (raster: Raster)
        requires
            4 * width * height <= usize::MAX,
        ensures
            raster@.well_formed(),
            raster@.width == width,
            raster@.height == height,
            raster@.uniform(color),
    {
        assert(width * height <= 4 * width * height && 4 * (width * height) == 4 * width * height)
            by (nonlinear_arith);
        let count: usize = (width as usize) * (height as usize);
        let mut data: Vec<u8> = Vec::new();
        let mut done: usize = 0;
        while done < count
            invariant
                done <= count,
                4 * count <= usize::MAX,
                data.len() == 4 * done,
                forall|k: int| 0 <= k < done ==> #[trigger] spells(data@, k, color),
            decreases count - done,
        {
            let ghost before = data@;
            data.push(color.r);
            data.push(color.g);
            data.push(color.b);
            data.push(color.a);
            done = done + 1;
            assert forall|k: int| 0 <= k < done implies #[trigger] spells(data@, k, color) by {
                if k < done - 1 {
                    assert(spells(before, k, color));
                }
            }
        }
        let raster = Raster { width, height, data };
        proof {
            assert forall|x: int, y: int| raster@.holds(x, y) implies #[trigger] raster@.pixel(
                x,
                y,
            ) == color by {
                lemma_position_bounds(raster@, x, y);
                assert(spells(raster.data@, y * width + x, color));
            }
        }
        raster
    }

    /// A raster of the given dimensions over `data`, four bytes per pixel
    /// row by row; `None` where `data` is not exactly that long.
    pub fn from_bytes(width: u32, height: u32, data: Vec<u8>) -> (made: Option<Raster>)
        ensures
            made is Some <==> data@.len() == 4 * width * height,
            made matches Some(raster) ==> raster@ == (Picture {
                width: width as nat,
                height: height as nat,
                bytes: data@,
            }),
    {
        assert(width * height <= 0xffff_ffff * 0xffff_ffff) by (nonlinear_arith)
            requires
                0 <= width <= 0xffff_ffff,
                0 <= height <= 0xffff_ffff,
        ;
        assert(4 * (width * height) == 4 * width * height) by (nonlinear_arith);
        let pixels: u64 = (width as u64) * (height as u64);
        assert(4 * pixels == 4 * width * height);
        assert(data.len() == data@.len());
        if pixels <= (usize::MAX as u64) / 4 && data.len() as u64 == 4 * pixels {
            Some(Raster { width, height, data })
        } else {
            None
        }
    }

    /// The number of columns.
    pub fn width(&self) -> (width: u32)
        ensures
            width == self@.width,
    {
        self.width
    }

    /// The number of rows.
    pub fn height(&self) -> (height: u32)
        ensures
            height == self@.height,
    {
        self.height
    }

    /// The bytes of the raster, four per pixel, row by row.
    pub fn bytes(&self) -> (bytes: &Vec<u8>)
        ensures
            bytes@ == self@.bytes,
    {
        &self.data
    }

    /// Where the first byte of pixel `(x, y)` lies.
    fn offset(&self, x: u32, y: u32) -> (at: usize)
        requires
            self@.holds(x as int, y as int),
        ensures
            at == self@.position(x as int, y as int),
            at + 4 <= self.data@.len(),
    {
        proof {
            use_type_invariant(self);
            lemma_position_bounds(self@, x as int, y as int);
            assert(0 <= y * self.width);
            assert(y * self.width + x < self.width * self.height);
            assert(4 * (self.width * self.height) == self.data.len());
        }
        4 * ((y as usize) * (self.width as usize) + (x as usize))
    }

    /// The pixel in column `x` of row `y`.
    pub fn pixel(&self, x: u32, y: u32) -> (color: Rgba)
        requires
            self@.holds(x as int, y as int),
        ensures
            color == self@.pixel(x as int, y as int),
    {
        let at: usize = self.offset(x, y);
        Rgba { r: self.data[at], g: self.data[at + 1], b: self.data[at + 2], a: self.data[at + 3] }
    }

    /// Sets the opacity of the pixel in column `x` of row `y`, and nothing
    /// else.
    pub fn set_alpha(&mut self, x: u32, y: u32, alpha: u8)
        requires
            old(self)@.holds(x as int, y as int),
        ensures
            final(self)@.well_formed(),
            final(self)@.same_shape(old(self)@),
            final(self)@.pixel(x as int, y as int) == (Rgba {
                a: alpha,
                ..old(self)@.pixel(x as int, y as int)
            }),
            forall|i: int, j: int|
                old(self)@.holds(i, j) && (i != x || j != y) ==> #[trigger] final(self)@.pixel(i, j)
                    == old(self)@.pixel(i, j),
    {
        let at: usize = self.offset(x, y);
        proof {
            use_type_invariant(&*self);
        }
        self.data[at + 3] = alpha;
        proof {
            assert forall|i: int, j: int| old(self)@.holds(i, j) && (i != x || j != y) implies #[trigger] self@.pixel(
                i,
                j,
            ) == old(self)@.pixel(i, j) by {
                lemma_position_bounds(old(self)@, i, j);
                lemma_position_distinct(old(self)@, i, j, x as int, y as int);
            }
        }
    }
}

/// Lays `top` on `bottom` with `top`'s first pixel at `(left, up)`, by
/// `image::imageops::overlay`. That function clips `top` to `bottom` and
/// blends each pixel of `bottom` that `top` covers with the pixel covering
/// it; `blend` keeps the lower pixel under a transparent one, takes an opaque
/// one as it is, and computes the rest in floating point, which `blended`
/// names.
#[verifier::external_body]
pub(crate) fn overlay(bottom: &mut Raster, top: &Raster, left: i64, up: i64)
    ensures
        final(bottom)@.well_formed(),
        final(bottom)@.same_shape(old(bottom)@),
        forall|x: int, y: int|
            old(bottom)@.holds(x, y) ==> #[trigger] final(bottom)@.pixel(x, y) == (if !top@.holds(
                x - left,
                y - up,
            ) || top@.pixel(x - left, y - up).a == 0 {
                old(bottom)@.pixel(x, y)
            } else if top@.pixel(x - left, y - up).a == 255 {
                top@.pixel(x - left, y - up)
            } else {
                blended(old(bottom)@.pixel(x, y), top@.pixel(x - left, y - up))
            }),
{
    let mut under = image::ImageBuffer::<image::Rgba<u8>, &mut [u8]>::from_raw(
        bottom.width,
        bottom.height,
        &mut bottom.data[..],
    ).unwrap();
    let over = image::ImageBuffer::<image::Rgba<u8>, &[u8]>::from_raw(
        top.width,
        top.height,
        &top.data[..],
    ).unwrap();
    image::imageops::overlay(&mut under, &over, left, up);
}

/// The longest edge, of the source or of the result, for which resampling
/// is asked. The filter places its windows in 32-bit floating point; up to
/// this edge each window lies within half a pixel of its true place and so
/// holds the pixel next to its centre, whose weight the others cannot cancel.
pub const RESAMPLE_LIMIT: u32 = 4_194_304;

/// Resamples `source` to `width` by `height` with the Lanczos filter of
/// window 3, by `image::imageops::resize`. That function returns an image of
/// the dimensions asked for, and a copy of `source` where they are its own.
/// Its samples come from floating-point sums, of which nothing is claimed.
/// It allocates `height` rows of `source`'s width in four 32-bit channels,
/// and the result. It divides each window's weights by their sum and fails
/// where that is zero, which edges beyond `RESAMPLE_LIMIT` can bring about.
#[verifier::external_body]
pub(crate) fn lanczos3(source: &Raster, width: u32, height: u32) -> (out: Raster)
    requires
        source@.width <= RESAMPLE_LIMIT,
        source@.height <= RESAMPLE_LIMIT,
        width <= RESAMPLE_LIMIT,
        height <= RESAMPLE_LIMIT,
        4 * width * height <= isize::MAX,
        16 * source@.width * height <= isize::MAX,
    ensures
        out@.well_formed(),
        out@.width == width,
        out@.height == height,
        source@.width == width && source@.height == height ==> out@ == source@,
{
    let view = image::ImageBuffer::<image::Rgba<u8>, &[u8]>::from_raw(
        source.width,
        source.height,
        &source.data[..],
    ).unwrap();
    let out = image::imageops::resize(&view, width, height, image::imageops::FilterType::Lanczos3);
    Raster { width, height, data: out.into_raw() }
}

} // verus!
