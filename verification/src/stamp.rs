//! From a fragment to a stamp: the silhouette resampled to the size asked
//! for, recoloured, and centred in a buffer that holds it however it is
//! turned. Turning the buffer is left to the caller.

use vstd::prelude::*;
use crate::geometry::{inset, lemma_rotated_edge, rotated_edge, silhouette_inset, stamp_edge};
use crate::raster::{
    lanczos3, lemma_pixels_fix_picture, Picture, Raster, Rgba, RESAMPLE_LIMIT,
};

verus! {

/// A fragment of the library: its silhouette, and which vector source
/// document draws it.
pub struct Fragment {
    pub silhouette: Raster,
    pub source: usize,
}

/// `fill` with the opacity `alpha`.
pub open spec fn tinted(fill: Rgba, alpha: u8) -> Rgba {
    Rgba { r: fill.r, g: fill.g, b: fill.b, a: alpha }
}

/// Pixel `(x, y)` of the cutout of `shape` in `fill`: the colour of `fill`
/// everywhere; the opacity of `shape` where `shape`, centred, covers the
/// pixel, and none elsewhere.
pub open spec fn cutout_pixel(shape: Picture, fill: Rgba, x: int, y: int) -> Rgba {
    let off = inset(shape.width) as int;
    if shape.holds(x - off, y - off) {
        tinted(fill, shape.pixel(x - off, y - off).a)
    } else {
        tinted(fill, 0)
    }
}

/// `stamp` is the cutout of the square silhouette `shape` in `fill`.
pub open spec fn is_cutout(stamp: Picture, shape: Picture, fill: Rgba) -> bool {
    &&& stamp.well_formed()
    &&& stamp.width == rotated_edge(shape.width)
    &&& stamp.height == rotated_edge(shape.width)
    &&& forall|x: int, y: int|
        stamp.holds(x, y) ==> #[trigger] stamp.pixel(x, y) == cutout_pixel(shape, fill, x, y)
}

/// A silhouette has one cutout in a colour.
pub proof fn lemma_cutout_is_unique(first: Picture, second: Picture, shape: Picture, fill: Rgba)
    requires
        is_cutout(first, shape, fill),
        is_cutout(second, shape, fill),
    ensures
        first == second,
{
    lemma_pixels_fix_picture(first, second);
}

/// What a cutout holds before it is turned: the silhouette's opacity, pixel
/// for pixel, in the square that starts at the inset on both axes, which
/// lies within the stamp; no opacity at any pixel outside that square; and
/// the colour of `fill` at every pixel.
pub proof fn lemma_cutout_holds_silhouette(stamp: Picture, shape: Picture, fill: Rgba)
    requires
        shape.width == shape.height,
        is_cutout(stamp, shape, fill),
    ensures
        forall|x: int, y: int|
            #![trigger shape.pixel(x, y)]
            shape.holds(x, y) ==> stamp.holds(x + inset(shape.width), y + inset(shape.width))
                && stamp.pixel(x + inset(shape.width), y + inset(shape.width)) == tinted(
                fill,
                shape.pixel(x, y).a,
            ),
        forall|x: int, y: int|
            stamp.holds(x, y) && !shape.holds(x - inset(shape.width), y - inset(shape.width))
                ==> #[trigger] stamp.pixel(x, y) == tinted(fill, 0),
        forall|x: int, y: int|
            stamp.holds(x, y) ==> (#[trigger] stamp.pixel(x, y)).r == fill.r && stamp.pixel(x, y).g
                == fill.g && stamp.pixel(x, y).b == fill.b,
{
    lemma_rotated_edge(shape.width);
    let off = inset(shape.width) as int;
    assert forall|x: int, y: int| #![trigger shape.pixel(x, y)] shape.holds(x, y) implies stamp.holds(
        x + off,
        y + off,
    ) && stamp.pixel(x + off, y + off) == tinted(fill, shape.pixel(x, y).a) by {
        assert(shape.holds((x + off) - off, (y + off) - off));
        assert(stamp.pixel(x + off, y + off) == cutout_pixel(shape, fill, x + off, y + off));
    }
}

/// A stamp for a silhouette of edge `size` can be held in memory.
pub open spec fn stamp_fits(size: nat) -> bool {
    &&& rotated_edge(size) <= u32::MAX
    &&& 4 * rotated_edge(size) * rotated_edge(size) <= usize::MAX
}

/// A fragment of `width` by `height` pixels can be resampled to edge `size`:
/// no edge is beyond `RESAMPLE_LIMIT`, and the result and the rows worked on
/// can be held in memory.
pub open spec fn resample_fits(width: nat, height: nat, size: nat) -> bool {
    &&& width <= RESAMPLE_LIMIT
    &&& height <= RESAMPLE_LIMIT
    &&& size <= RESAMPLE_LIMIT
    &&& 4 * size * size <= isize::MAX
    &&& 16 * width * size <= isize::MAX
}

/// Whether a stamp for a silhouette of edge `size` can be held in memory.
pub fn can_hold_stamp(size: u32) -> (fits: bool)
    ensures
        fits == stamp_fits(size as nat),
{
    let edge: u64 = stamp_edge(size);
    assert(edge * edge <= 0x2_0000_0000 * 0x2_0000_0000) by (nonlinear_arith)
        requires
            0 <= edge <= 0x2_0000_0000,
    ;
    assert(4 * edge * edge == 4 * (edge * edge)) by (nonlinear_arith);
    let area: u128 = 4 * ((edge as u128) * (edge as u128));
    edge <= u32::MAX as u64 && area <= usize::MAX as u128
}

/// Whether a fragment of `width` by `height` pixels can be resampled to edge
/// `size`.
pub fn can_resample(width: u32, height: u32, size: u32) -> (fits: bool)
    ensures
        fits == resample_fits(width as nat, height as nat, size as nat),
{
    if width > RESAMPLE_LIMIT || height > RESAMPLE_LIMIT || size > RESAMPLE_LIMIT {
        return false;
    }
    assert(size * size <= 4_194_304 * 4_194_304 && width * size <= 4_194_304 * 4_194_304)
        by (nonlinear_arith)
        requires
            0 <= size <= 4_194_304,
            0 <= width <= 4_194_304,
    ;
    assert(4 * size * size == 4 * (size * size) && 16 * width * size == 16 * (width * size))
        by (nonlinear_arith);
    let square: u64 = 4 * ((size as u64) * (size as u64));
    let rows: u64 = 16 * ((width as u64) * (size as u64));
    square <= isize::MAX as u64 && rows <= isize::MAX as u64
}

/// The cutout of a square silhouette: a buffer of the stamp's edge, in the
/// colour of `fill` throughout and transparent, but for the centred square
/// that takes its opacity, pixel by pixel, from `shape`.
pub fn cutout(shape: &Raster, fill: Rgba) -> (stamp: Raster)
    requires
        shape@.width == shape@.height,
        stamp_fits(shape@.width),
    ensures
        is_cutout(stamp@, shape@, fill),
{
    let size: u32 = shape.width();
    let edge: u32 = stamp_edge(size) as u32;
    let off: u32 = silhouette_inset(size) as u32;
    let clear = Rgba { r: fill.r, g: fill.g, b: fill.b, a: 0 };
    let mut stamp = Raster::filled(edge, edge, clear);
    let mut x: u32 = 0;
    while x < size
        invariant
            x <= size,
            size == shape@.width,
            size == shape@.height,
            edge == rotated_edge(size as nat),
            off == inset(size as nat),
            2 * off + size == edge,
            stamp@.well_formed(),
            stamp@.width == edge,
            stamp@.height == edge,
            forall|i: int, j: int|
                stamp@.holds(i, j) ==> #[trigger] stamp@.pixel(i, j) == (if i - off < x {
                    cutout_pixel(shape@, fill, i, j)
                } else {
                    tinted(fill, 0)
                }),
        decreases size - x,
    {
        let mut y: u32 = 0;
        while y < size
            invariant
                x < size,
                y <= size,
                size == shape@.width,
                size == shape@.height,
                edge == rotated_edge(size as nat),
                off == inset(size as nat),
                2 * off + size == edge,
                stamp@.well_formed(),
                stamp@.width == edge,
                stamp@.height == edge,
                forall|i: int, j: int|
                    stamp@.holds(i, j) ==> #[trigger] stamp@.pixel(i, j) == (if i - off < x || (i
                        - off == x && j - off < y) {
                        cutout_pixel(shape@, fill, i, j)
                    } else {
                        tinted(fill, 0)
                    }),
            decreases size - y,
        {
            let alpha: u8 = shape.pixel(x, y).a;
            stamp.set_alpha(x + off, y + off, alpha);
            y = y + 1;
        }
        x = x + 1;
    }
    stamp
}

/// The stamp of `fragment` at edge `size` in `fill`, before it is turned:
/// the cutout of the silhouette resampled to `size` by `size`. What the
/// resampling yields is not fixed here, so the stamp is the cutout of some
/// silhouette of that edge, and of the fragment's own where the fragment
/// already has it.
pub fn prepare(fragment: &Raster, size: u32, fill: Rgba) -> (stamp: Raster)
    requires
        resample_fits(fragment@.width, fragment@.height, size as nat),
        stamp_fits(size as nat),
    ensures
        exists|shape: Picture|
            {
                &&& shape.well_formed()
                &&& shape.width == size
                &&& shape.height == size
                &&& fragment@.width == size && fragment@.height == size ==> shape == fragment@
                &&& #[trigger] is_cutout(stamp@, shape, fill)
            },
{
    let shape = lanczos3(fragment, size, size);
    cutout(&shape, fill)
}

} // verus!
