//! Unpacking a decoded image's sample bytes into one RGB colour per pixel.
use vstd::prelude::*;
use crate::color::Color;

verus! {

/// How a decoded image lays out the samples of one pixel.
#[derive(Clone, Copy, Debug, PartialEq, Eq, Structural)]
pub enum PixelLayout {
    Grayscale,
    GrayscaleAlpha,
    Rgb,
    Rgba,
    Indexed,
}

/// Why an image's samples cannot be unpacked.
#[derive(Clone, Copy, Debug, PartialEq, Eq, Structural)]
pub enum ImageError {
    /// The layout holds no colour samples (palette indices).
    UnsupportedColorType,
    /// The buffer is shorter than the pixels it should hold.
    TruncatedBuffer,
}

/// The bytes per pixel of a layout that holds its colour in its own samples.
pub open spec fn layout_bytes(layout: PixelLayout) -> Option<nat> {
    match layout {
        PixelLayout::Grayscale => Some(1),
        PixelLayout::GrayscaleAlpha => Some(2),
        PixelLayout::Rgb => Some(3),
        PixelLayout::Rgba => Some(4),
        PixelLayout::Indexed => None,
    }
}

/// The colour of pixel `i` in `buf` with `bpp` bytes per pixel: its first three samples
/// where there are three or more, else its first sample (the luma) on all three channels.
pub open spec fn pixel_color(buf: Seq<u8>, i: nat, bpp: nat) -> Color {
    let o = (i * bpp) as int;
    if bpp > 2 {
        Color { r: buf[o], g: buf[o + 1], b: buf[o + 2] }
    } else {
        Color { r: buf[o], g: buf[o], b: buf[o] }
    }
}

/// The bytes per pixel of `layout`, or `None` for a palette layout.
pub fn bytes_per_pixel(layout: PixelLayout) -> (r: Option<usize>)
    ensures
        r matches Some(n) ==> layout_bytes(layout) == Some(n as nat),
        r is None <==> layout_bytes(layout) is None,
{
    match layout {
        PixelLayout::Grayscale => Some(1),
        PixelLayout::GrayscaleAlpha => Some(2),
        PixelLayout::Rgb => Some(3),
        PixelLayout::Rgba => Some(4),
        PixelLayout::Indexed => None,
    }
}

/// The colours of the first `pixel_count` pixels of `buf`, laid out as `layout` says.
pub fn unpack_pixels(buf: &Vec<u8>, pixel_count: usize, layout: PixelLayout) -> (r: Result<
    Vec<Color>,
    ImageError,
>)
    ensures
        layout_bytes(layout) is None ==> r == Err::<Vec<Color>, ImageError>(
            ImageError::UnsupportedColorType,
        ),
        layout_bytes(layout) matches Some(bpp) ==> {
            &&& buf@.len() < pixel_count * bpp ==> r == Err::<Vec<Color>, ImageError>(
                ImageError::TruncatedBuffer,
            )
            &&& buf@.len() >= pixel_count * bpp ==> (r matches Ok(v) && v@.len() == pixel_count
                && forall|i: int| 0 <= i < pixel_count ==> #[trigger] v@[i] == pixel_color(buf@, i as nat, bpp))
        },
{
    let bpp = match bytes_per_pixel(layout) {
        Some(n) => n,
        None => {
            return Err(ImageError::UnsupportedColorType);
        },
    };
    let len = buf.len();
    if pixel_count > len / bpp {
        proof { lemma_fits(pixel_count as nat, len as nat, bpp as nat); }
        return Err(ImageError::TruncatedBuffer);
    }
    proof { lemma_fits(pixel_count as nat, len as nat, bpp as nat); }
    let mut v: Vec<Color> = Vec::new();
    let mut i: usize = 0;
    let mut offset: usize = 0;
    while i < pixel_count
        invariant
            1 <= bpp <= 4,
            len == buf@.len(),
            pixel_count * bpp <= len,
            i <= pixel_count,
            offset == i * bpp,
            v@.len() == i,
            forall|k: int| 0 <= k < i ==> #[trigger] v@[k] == pixel_color(buf@, k as nat, bpp as nat),
        decreases pixel_count - i,
    {
        proof { lemma_pixel_in_buffer(i as nat, pixel_count as nat, bpp as nat); }
        let c = if bpp > 2 {
            Color { r: buf[offset], g: buf[offset + 1], b: buf[offset + 2] }
        } else {
            let luma = buf[offset];
            Color { r: luma, g: luma, b: luma }
        };
        v.push(c);
        i = i + 1;
        offset = offset + bpp;
        proof {
            assert(offset == i * bpp) by (nonlinear_arith)
                requires offset == (i - 1) * bpp + bpp;
        }
    }
    Ok(v)
}

/// `n` pixels of `bpp` bytes fit in `len` bytes exactly when `n <= len / bpp`.
proof fn lemma_fits(n: nat, len: nat, bpp: nat)
    requires
        bpp > 0,
    ensures
        n * bpp <= len <==> n <= len / bpp,
{
    if n <= len / bpp {
        assert(n * bpp <= (len / bpp) * bpp) by (nonlinear_arith)
            requires n <= len / bpp;
        assert((len / bpp) * bpp <= len) by (nonlinear_arith)
            requires bpp > 0;
    } else {
        assert(n * bpp >= (len / bpp + 1) * bpp) by (nonlinear_arith)
            requires n >= len / bpp + 1;
        assert((len / bpp + 1) * bpp > len) by (nonlinear_arith)
            requires bpp > 0;
    }
}

/// The samples of pixel `i` of `n` lie inside a buffer of `n * bpp` bytes.
proof fn lemma_pixel_in_buffer(i: nat, n: nat, bpp: nat)
    requires
        i < n,
    ensures
        i * bpp + bpp <= n * bpp,
{
    assert(i * bpp + bpp <= n * bpp) by (nonlinear_arith)
        requires i < n;
}

} // verus!
