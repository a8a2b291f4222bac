//! The pixel grid: which pixel each slot of the output holds, and the
//! parallel driver that fills the slots.
//!
//! Pixels are sampled along each scanline, bottom scanline first. The
//! output holds them in the opposite order, so that its first scanline is
//! the top of the image.

use rayon::iter::IndexedParallelIterator;
use rayon::iter::IntoParallelIterator;
use rayon::iter::ParallelIterator;
use vstd::arithmetic::div_mod::lemma_fundamental_div_mod;
use vstd::arithmetic::div_mod::lemma_fundamental_div_mod_converse;
use vstd::prelude::*;

verus! {

/// A pixel of the image plane. Columns count from the left edge, rows from
/// the bottom scanline upwards.
#[derive(Clone, Copy, Debug, PartialEq, Eq, Structural)]
pub struct Pixel {
    pub column: usize,
    pub row: usize,
}

impl Pixel {
    /// Whether the pixel lies on a grid of `width` by `height` pixels.
    pub open spec fn within(self, width: int, height: int) -> bool {
        self.column < width && self.row < height
    }
}

/// The pixel that is sampled `index`-th on a grid `width` pixels wide.
pub open spec fn sample_pixel(index: int, width: int) -> Pixel {
    Pixel { column: (index % width) as usize, row: (index / width) as usize }
}

/// The pixel held by slot `slot` of the output of a `width` by `height`
/// image: the output runs through the samples backwards.
pub open spec fn slot_pixel(slot: int, width: int, height: int) -> Pixel {
    sample_pixel(width * height - 1 - slot, width)
}

/// The slot of the output that holds `pixel`.
pub open spec fn pixel_slot(pixel: Pixel, width: int, height: int) -> int {
    (height - 1 - pixel.row) * width + (width - 1 - pixel.column)
}

/// Whether `pixels` is an output of rendering a `width` by `height` image
/// with `shade`: one entry per pixel, each a result of `shade` on the pixel
/// that its slot holds.
pub open spec fn is_rendering<C, F: Fn(Pixel) -> C>(
    shade: F,
    width: int,
    height: int,
    pixels: Seq<C>,
) -> bool {
    &&& pixels.len() == width * height
    &&& forall|slot: int|
        0 <= slot < pixels.len() ==> call_ensures(
            shade,
            (slot_pixel(slot, width, height),),
            #[trigger] pixels[slot],
        )
}

/// The number of pixels of a `width` by `height` image, unless it exceeds
/// what a `usize` holds.
pub fn pixel_count(width: usize, height: usize) -> (count: Option<usize>)
    ensures
        count is Some <==> width * height <= usize::MAX,
        count matches Some(n) ==> n == width * height,
{
    width.checked_mul(height)
}

/// The pixel that slot `slot` of the output holds.
pub fn pixel_at(slot: usize, width: usize, height: usize) -> (pixel: Pixel)
    requires
        slot < width * height,
        width * height <= usize::MAX,
    ensures
        pixel == slot_pixel(slot as int, width as int, height as int),
        pixel.within(width as int, height as int),
{
    proof {
        lemma_slot_pixel(slot as int, width as int, height as int);
    }
    let index = width * height - 1 - slot;
    Pixel { column: index % width, row: index / width }
}

/// Runs `work` on every index below `count` on the thread pool and gathers
/// the results, last index first.
///
/// Trusted: this is rayon's `into_par_iter` on a range of `usize`, then
/// `map`, `rev` and `collect` into a vector. The contract says that the
/// vector has one entry per index and that the entry at position `k` is a
/// result of `work` on index `count - 1 - k`. Nothing is said of the order
/// or the thread in which the calls are made, and running out of memory is
/// not modelled, as it is not for `Vec` in vstd.
#[verifier::external_body]
fn gather_reversed<C, F>(count: usize, work: F) -> (results: Vec<C>) where
    C: Send,
    F: Fn(usize) -> C + Sync + Send,

    requires
        forall|index: usize| index < count ==> call_requires(work, (index,)),
    ensures
        results@.len() == count,
        forall|k: int|
            0 <= k < count ==> call_ensures(
                work,
                ((count - 1 - k) as usize,),
                #[trigger] results@[k],
            ),
{
    (0..count).into_par_iter().map(work).rev().collect()
}

/// Renders a `width` by `height` image: hands every pixel to `shade`, on
/// the thread pool, and returns what `shade` gave for them scanline by
/// scanline, the top scanline first.
pub fn render<C, F>(width: usize, height: usize, shade: F) -> (pixels: Vec<C>) where
    C: Send,
    F: Fn(Pixel) -> C + Sync + Send,

    requires
        width * height <= usize::MAX,
        forall|p: Pixel| p.within(width as int, height as int) ==> call_requires(shade, (p,)),
    ensures
        is_rendering(shade, width as int, height as int, pixels@),
{
    let count = width * height;
    let shade = &shade;
    let work = |index: usize| -> (colour: C)
        requires
            index < width * height,
            forall|p: Pixel| p.within(width as int, height as int) ==> call_requires(shade, (p,)),
        ensures
            call_ensures(shade, (sample_pixel(index as int, width as int),), colour),
        {
            proof {
                lemma_sample_pixel(index as int, width as int, height as int);
            }
            let pixel = Pixel { column: index % width, row: index / width };
            assert(call_requires(shade, (pixel,)));
            shade(pixel)
        };
    gather_reversed(count, work)
}

/// Every sample index of the grid names a pixel of the grid.
pub proof fn lemma_sample_pixel(index: int, width: int, height: int)
    requires
        0 <= index < width * height,
        0 <= width <= usize::MAX,
        0 <= height <= usize::MAX,
    ensures
        width > 0,
        0 <= index % width < width,
        0 <= index / width < height,
        sample_pixel(index, width).within(width, height),
        sample_pixel(index, width).column == index % width,
        sample_pixel(index, width).row == index / width,
{
    assert(width > 0) by (nonlinear_arith)
        requires
            0 <= index < width * height,
            0 <= width,
    ;
    lemma_fundamental_div_mod(index, width);
    assert(0 <= index / width < height) by (nonlinear_arith)
        requires
            0 <= index < width * height,
            width > 0,
            index == width * (index / width) + index % width,
            0 <= index % width < width,
    ;
}

/// The slots run through the scanlines from the top of the image to the
/// bottom, and through each scanline from its right end to its left: slot
/// `slot` holds the pixel `slot % width` columns from the right edge and
/// `slot / width` rows from the top. In particular the first `width` slots
/// are the top scanline.
pub proof fn lemma_slot_pixel(slot: int, width: int, height: int)
    requires
        0 <= slot < width * height,
        0 <= width <= usize::MAX,
        0 <= height <= usize::MAX,
    ensures
        slot_pixel(slot, width, height).within(width, height),
        slot_pixel(slot, width, height).column == width - 1 - slot % width,
        slot_pixel(slot, width, height).row == height - 1 - slot / width,
        slot < width ==> slot_pixel(slot, width, height).row == height - 1,
{
    lemma_sample_pixel(slot, width, height);
    lemma_fundamental_div_mod(slot, width);
    let q = slot / width;
    let r = slot % width;
    let index = width * height - 1 - slot;
    assert(index == (height - 1 - q) * width + (width - 1 - r)) by (nonlinear_arith)
        requires
            index == width * height - 1 - slot,
            slot == width * q + r,
    ;
    lemma_fundamental_div_mod_converse(index, width, height - 1 - q, width - 1 - r);
    if slot < width {
        lemma_fundamental_div_mod_converse(slot, width, 0, slot);
    }
}

/// Every pixel of the grid has one slot of the output, and no two slots
/// hold the same pixel.
pub proof fn lemma_one_slot_per_pixel(pixel: Pixel, slot: int, width: int, height: int)
    requires
        0 <= width <= usize::MAX,
        0 <= height <= usize::MAX,
        pixel.within(width, height),
        0 <= slot < width * height,
    ensures
        0 <= pixel_slot(pixel, width, height) < width * height,
        slot_pixel(pixel_slot(pixel, width, height), width, height) == pixel,
        slot_pixel(slot, width, height) == pixel <==> slot == pixel_slot(pixel, width, height),
{
    let home = pixel_slot(pixel, width, height);
    let from_top = height - 1 - pixel.row;
    let from_right = width - 1 - pixel.column;
    assert(0 <= home < width * height) by (nonlinear_arith)
        requires
            home == from_top * width + from_right,
            0 <= from_top <= height - 1,
            0 <= from_right <= width - 1,
    ;
    lemma_fundamental_div_mod_converse(home, width, from_top, from_right);
    lemma_slot_pixel(home, width, height);
    lemma_slot_pixel(slot, width, height);
    lemma_fundamental_div_mod(slot, width);
    if slot_pixel(slot, width, height) == pixel {
        assert(slot % width == from_right);
        assert(slot / width == from_top);
        assert(slot == home) by (nonlinear_arith)
            requires
                slot == width * (slot / width) + slot % width,
                slot / width == from_top,
                slot % width == from_right,
                home == from_top * width + from_right,
        ;
    }
}

/// Rendering is repeatable: where `shade` can give only one colour for each
/// pixel, any two renderings of the same image agree in every slot.
pub proof fn lemma_rendering_is_repeatable<C, F: Fn(Pixel) -> C>(
    shade: F,
    width: int,
    height: int,
    first: Seq<C>,
    second: Seq<C>,
)
    requires
        is_rendering(shade, width, height, first),
        is_rendering(shade, width, height, second),
        forall|p: Pixel, a: C, b: C|
            call_ensures(shade, (p,), a) && call_ensures(shade, (p,), b) ==> a == b,
    ensures
        first == second,
{
    assert(first.len() == second.len());
    assert forall|slot: int| 0 <= slot < first.len() implies first[slot] == second[slot] by {
        let p = slot_pixel(slot, width, height);
        assert(call_ensures(shade, (p,), first[slot]));
        assert(call_ensures(shade, (p,), second[slot]));
    }
    assert(first =~= second);
}

} // verus!
