//! A raster of pixel colours and its plain-text PPM form.
use vstd::prelude::*;
use crate::color::{Color, color_text, push_color};
use crate::text::{decimal, push_decimal};

verus! {

/// A `width` by `height` raster, stored row after row (pixel `(i, j)` at `j * width + i`).
pub struct Picture {
    width: usize,
    height: usize,
    colors: Vec<Color>,
}

/// The black colour that a new picture is filled with.
pub open spec fn black() -> Color {
    Color { r: 0, g: 0, b: 0 }
}

/// The text of row `j`: the text of each of its pixels, left to right, then a newline.
pub open spec fn row_text(w: nat, colors: Seq<Color>, j: nat) -> Seq<char> {
    row_prefix_text(w, colors, j, w) + seq!['\n']
}

/// The text of the first `n` pixels of row `j`.
pub open spec fn row_prefix_text(w: nat, colors: Seq<Color>, j: nat, n: nat) -> Seq<char>
    decreases n,
{
    if n == 0 {
        Seq::empty()
    } else {
        row_prefix_text(w, colors, j, (n - 1) as nat) + color_text(colors[j * w + n - 1])
    }
}

/// The text of rows `hi - 1` down to `lo`, the higher rows first.
pub open spec fn rows_text(w: nat, colors: Seq<Color>, hi: nat, lo: nat) -> Seq<char>
    decreases hi - lo,
{
    if lo >= hi {
        Seq::empty()
    } else {
        rows_text(w, colors, hi, lo + 1) + row_text(w, colors, lo)
    }
}

/// The plain-text PPM of a raster: its magic line, the size, the maximum channel value 255,
/// then the rows from the last one (the bottom of the image) up to the first.
pub open spec fn ppm_text(w: nat, h: nat, colors: Seq<Color>) -> Seq<char> {
    seq!['P', '3', '\n'] + decimal(w) + seq![' '] + decimal(h) + seq!['\n', '2', '5', '5', '\n']
        + rows_text(w, colors, h, 0)
}

impl Picture {
    pub closed spec fn spec_width(&self) -> usize {
        self.width
    }

    pub closed spec fn spec_height(&self) -> usize {
        self.height
    }

    /// The colours, row after row.
    pub closed spec fn pixels(&self) -> Seq<Color> {
        self.colors@
    }

    /// The stored colours are exactly one per pixel.
    pub closed spec fn inv(&self) -> bool {
        self.colors@.len() == self.width * self.height
    }

    /// A black picture of the given size.
    pub fn new(width: usize, height: usize) -> (r: Picture)
        requires
            width * height <= usize::MAX,
        ensures
            r.inv(),
            r.spec_width() == width,
            r.spec_height() == height,
            r.pixels() == Seq::new((width * height) as nat, |k: int| black()),
    {
        let n: usize = width * height;
        let colors = vec![Color { r: 0, g: 0, b: 0 }; n];
        let r = Picture { width, height, colors };
        assert(r.colors@ =~= Seq::new((width * height) as nat, |k: int| black()));
        r
    }

    pub fn width(&self) -> (r: usize)
        ensures
            r == self.spec_width(),
    {
        self.width
    }

    pub fn height(&self) -> (r: usize)
        ensures
            r == self.spec_height(),
    {
        self.height
    }

    /// The colour of pixel `(i, j)`: column `i` of row `j`.
    pub fn pixel(&self, i: usize, j: usize) -> (r: Color)
        requires
            self.inv(),
            i < self.spec_width(),
            j < self.spec_height(),
        ensures
            r == self.pixels()[j * self.spec_width() + i],
    {
        proof {
            lemma_pixel_index(i as nat, j as nat, self.width as nat, self.height as nat);
            assert(self.colors.len() == self.colors@.len());
        }
        self.colors[j * self.width + i]
    }

    /// Sets every pixel `(i, j)` to what `shade(i, j, width, height)` returns, row after row,
    /// each row from left to right.
    pub fn mutate<F: Fn(usize, usize, usize, usize) -> Color>(&mut self, shade: F)
        requires
            old(self).inv(),
            forall|i: usize, j: usize|
                i < old(self).spec_width() && j < old(self).spec_height() ==> #[trigger] shade.requires(
                    (i, j, old(self).spec_width(), old(self).spec_height()),
                ),
        ensures
            final(self).inv(),
            final(self).spec_width() == old(self).spec_width(),
            final(self).spec_height() == old(self).spec_height(),
            forall|i: usize, j: usize|
                i < final(self).spec_width() && j < final(self).spec_height() ==> shade.ensures(
                    (i, j, final(self).spec_width(), final(self).spec_height()),
                    #[trigger] final(self).pixels()[j * final(self).spec_width() + i],
                ),
    {
        let w = self.width;
        let h = self.height;
        assert(old(self).spec_width() == w && old(self).spec_height() == h);
        let mut j: usize = 0;
        while j < h
            invariant
                self.inv(),
                self.width == w,
                self.height == h,
                j <= h,
                forall|i: usize, j: usize|
                    i < w && j < h ==> #[trigger] shade.requires((i, j, w, h)),
                forall|a: usize, b: usize|
                    a < w && b < j ==> shade.ensures((a, b, w, h), #[trigger] self.colors@[b * w + a]),
            decreases h - j,
        {
            let mut i: usize = 0;
            while i < w
                invariant
                    self.inv(),
                    self.width == w,
                    self.height == h,
                    j < h,
                    i <= w,
                    forall|i: usize, j: usize|
                        i < w && j < h ==> #[trigger] shade.requires((i, j, w, h)),
                    forall|a: usize, b: usize|
                        a < w && b < j ==> shade.ensures((a, b, w, h), #[trigger] self.colors@[b * w + a]),
                    forall|a: usize|
                        a < i ==> shade.ensures((a, j, w, h), #[trigger] self.colors@[j * w + a]),
                decreases w - i,
            {
                proof {
                    lemma_pixel_index(i as nat, j as nat, w as nat, h as nat);
                    assert(self.colors.len() == self.colors@.len());
                }
                let c = shade(i, j, w, h);
                let k: usize = j * w + i;
                self.colors.set(k, c);
                proof {
                    assert forall|a: usize, b: usize|
                        a < w && b < j implies shade.ensures((a, b, w, h), #[trigger] self.colors@[b * w + a]) by {
                        lemma_pixel_index(a as nat, b as nat, w as nat, h as nat);
                        lemma_pixel_index_distinct(a as nat, b as nat, i as nat, j as nat, w as nat);
                    }
                    assert forall|a: usize|
                        a <= i implies shade.ensures((a, j, w, h), #[trigger] self.colors@[j * w + a]) by {
                        lemma_pixel_index(a as nat, j as nat, w as nat, h as nat);
                        if a < i {
                            lemma_pixel_index_distinct(a as nat, j as nat, i as nat, j as nat, w as nat);
                        }
                    }
                }
                i = i + 1;
            }
            j = j + 1;
        }
    }

    /// The picture as PPM text (see `ppm_text`).
    pub fn to_ppm(&self) -> (r: String)
        requires
            self.inv(),
        ensures
            r@ == ppm_text(self.spec_width() as nat, self.spec_height() as nat, self.pixels()),
    {
        let w = self.width;
        let h = self.height;
        let ghost cs = self.colors@;
        proof {
            reveal_strlit("P3\n");
            reveal_strlit(" ");
            reveal_strlit("\n255\n");
        }
        let mut s = String::new();
        s.append("P3\n");
        push_decimal(&mut s, w);
        s.append(" ");
        push_decimal(&mut s, h);
        s.append("\n255\n");
        let ghost header = s@;
        let mut k: usize = h;
        while k > 0
            invariant
                self.inv(),
                self.width == w,
                self.height == h,
                cs == self.colors@,
                k <= h,
                s@ == header + rows_text(w as nat, cs, h as nat, k as nat),
            decreases k,
        {
            k = k - 1;
            let ghost before = s@;
            let mut i: usize = 0;
            while i < w
                invariant
                    self.inv(),
                    self.width == w,
                    self.height == h,
                    cs == self.colors@,
                    k < h,
                    i <= w,
                    before == header + rows_text(w as nat, cs, h as nat, (k + 1) as nat),
                    s@ == before + row_prefix_text(w as nat, cs, k as nat, i as nat),
                decreases w - i,
            {
                proof {
                    lemma_pixel_index(i as nat, k as nat, w as nat, h as nat);
                    assert(self.colors.len() == self.colors@.len());
                }
                push_color(&mut s, &self.colors[k * w + i]);
                i = i + 1;
                assert(s@ =~= before + row_prefix_text(w as nat, cs, k as nat, i as nat));
            }
            let ghost mid = s@;
            proof { reveal_strlit("\n"); }
            s.append("\n");
            assert(mid == before + row_prefix_text(w as nat, cs, k as nat, w as nat));
            assert(s@ =~= before + row_text(w as nat, cs, k as nat));
            assert(rows_text(w as nat, cs, h as nat, k as nat) == rows_text(w as nat, cs, h as nat, (k + 1) as nat)
                + row_text(w as nat, cs, k as nat));
            assert(s@ =~= header + rows_text(w as nat, cs, h as nat, k as nat));
        }
        assert(s@ =~= ppm_text(w as nat, h as nat, cs));
        s
    }
}

/// Pixel `(i, j)` of a `w` by `h` raster lies inside its row-major storage.
proof fn lemma_pixel_index(i: nat, j: nat, w: nat, h: nat)
    requires
        i < w,
        j < h,
    ensures
        j * w + i < w * h,
{
    assert(j * w + i < w * h) by (nonlinear_arith)
        requires i < w, j < h;
}

/// Distinct pixels of a row-major raster have distinct storage positions.
proof fn lemma_pixel_index_distinct(a: nat, b: nat, i: nat, j: nat, w: nat)
    requires
        a < w,
        i < w,
        a != i || b != j,
    ensures
        b * w + a != j * w + i,
{
    if b == j {
    } else if b < j {
        assert(b * w + a < j * w + i) by (nonlinear_arith)
            requires b < j, a < w;
    } else {
        assert(j * w + i < b * w + a) by (nonlinear_arith)
            requires j < b, i < w;
    }
}

} // verus!
