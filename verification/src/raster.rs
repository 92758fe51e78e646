//! The pixel buffer that a render fills.
//!
//! A raster of `width` by `height` pixels is a flat run of bytes, three to a
//! pixel, row after row. Row 0 is the bottom row of the picture, as the
//! camera counts rows from the bottom of its viewport upwards.

use vstd::prelude::*;
use crate::vec3::{ColorU8, Triple};

verus! {

/// Where the red byte of pixel `(row, col)` stands in a raster `width` wide.
pub open spec fn offset(width: int, row: int, col: int) -> int {
    (row * width + col) * 3
}

/// The color that the bytes `data` hold for pixel `(row, col)`.
pub open spec fn pixel_at(data: Seq<u8>, width: int, row: int, col: int) -> ColorU8 {
    let at = offset(width, row, col);
    ColorU8(Triple(data[at], data[at + 1], data[at + 2]))
}

/// The bytes `data` with the three bytes from `at` on replaced by the
/// channels of `color`.
pub open spec fn with_pixel(data: Seq<u8>, at: int, color: ColorU8) -> Seq<u8> {
    data.update(at, color.0.0).update(at + 1, color.0.1).update(at + 2, color.0.2)
}

/// The bytes of a row: the channels of its pixels from left to right.
pub open spec fn row_bytes(pixels: Seq<ColorU8>) -> Seq<u8> {
    Seq::new(pixels.len() * 3, |i: int| pixels[i / 3].channel(i % 3))
}

/// Every pixel of a raster lies inside its bytes.
pub proof fn lemma_offset_in_bounds(width: int, height: int, row: int, col: int)
    requires
        0 <= row < height,
        0 <= col < width,
    ensures
        0 <= row * width <= row * width + col < width * height,
        0 <= offset(width, row, col),
        offset(width, row, col) + 3 <= width * height * 3,
        offset(width, row, 0) <= offset(width, row, col),
        offset(width, row, col) + 3 <= offset(width, row, 0) + width * 3,
{
    lemma_row_in_bounds(width, height, row);
}

/// Every row of a raster lies inside its bytes, also where the rows are
/// empty.
pub proof fn lemma_row_in_bounds(width: int, height: int, row: int)
    requires
        0 <= row < height,
        0 <= width,
    ensures
        0 <= row * width,
        row * width + width <= width * height,
        0 <= offset(width, row, 0),
        offset(width, row, 0) + width * 3 <= width * height * 3,
{
    assert(0 <= row * width && row * width + width <= height * width) by (nonlinear_arith)
        requires
            0 <= row,
            row + 1 <= height,
            0 <= width,
    ;
    assert(height * width == width * height) by (nonlinear_arith);
    assert(width * height * 3 == (width * height) * 3);
}

/// Two pixels share no byte: the three bytes of one end before those of the
/// other begin.
pub proof fn lemma_pixels_disjoint(width: int, row: int, col: int, other_row: int, other_col: int)
    requires
        0 <= col < width,
        0 <= other_col < width,
        (row, col) != (other_row, other_col),
    ensures
        offset(width, row, col) + 3 <= offset(width, other_row, other_col) || offset(
            width,
            other_row,
            other_col,
        ) + 3 <= offset(width, row, col),
{
    if row < other_row {
        assert(row * width + width <= other_row * width) by (nonlinear_arith)
            requires
                row + 1 <= other_row,
                0 < width,
        ;
    } else if other_row < row {
        assert(other_row * width + width <= row * width) by (nonlinear_arith)
            requires
                other_row + 1 <= row,
                0 < width,
        ;
    }
}

/// The band of a row ends before the band of any later row begins.
pub proof fn lemma_rows_disjoint(width: int, row: int, later_row: int)
    requires
        0 <= width,
        row < later_row,
    ensures
        offset(width, row, 0) + width * 3 <= offset(width, later_row, 0),
{
    assert(row * width + width <= later_row * width) by (nonlinear_arith)
        requires
            row + 1 <= later_row,
            0 <= width,
    ;
}

/// The rows cut the bytes into bands that do not overlap and leave nothing
/// out: byte `at` belongs to the band of row `at / (3 * width)` and to no
/// other.
pub proof fn lemma_rows_partition(width: int, height: int, at: int, row: int)
    requires
        0 <= width,
        0 <= height,
        0 <= at < width * height * 3,
    ensures
        0 <= at / (width * 3) < height,
        offset(width, row, 0) <= at < offset(width, row, 0) + width * 3 <==> row == at / (width
            * 3),
{
    assert(width > 0) by (nonlinear_arith)
        requires
            0 <= width,
            0 <= at < width * height * 3,
    ;
    let band = width * 3;
    let q = at / band;
    vstd::arithmetic::div_mod::lemma_fundamental_div_mod(at as int, band as int);
    vstd::arithmetic::div_mod::lemma_mod_bound(at as int, band as int);
    assert(at == band * q + at % band);
    assert(width * height * 3 == band * height) by (nonlinear_arith)
        requires
            band == width * 3,
    ;
    assert(0 <= q < height) by (nonlinear_arith)
        requires
            0 <= at % band < band,
            at == band * q + at % band,
            0 <= at < band * height,
            band > 0,
    ;
    assert(offset(width, row, 0) == band * row) by (nonlinear_arith)
        requires
            band == width * 3,
            offset(width, row, 0) == (row * width + 0) * 3,
    ;
    if band * row <= at && at < band * row + band {
        assert(row == q) by (nonlinear_arith)
            requires
                band * row <= at,
                at < band * row + band,
                band * q <= at,
                at < band * q + band,
                band > 0,
        ;
    }
}

/// A raster of pixels, three bytes to a pixel, bottom row first.
pub struct PixelBuffer {
    width: usize,
    height: usize,
    data: Vec<u8>,
}

impl View for PixelBuffer {
    type V = Seq<u8>;

    /// The bytes of the raster, row 0 first.
    closed spec fn view(&self) -> Seq<u8> {
        self.data@
    }
}

impl PixelBuffer {
    /// The number of pixels in a row.
    pub closed spec fn spec_width(&self) -> usize {
        self.width
    }

    /// The number of rows.
    pub closed spec fn spec_height(&self) -> usize {
        self.height
    }

    /// Whether the raster holds three bytes for each of its pixels. Every
    /// raster that this module hands out does.
    pub open spec fn wf(&self) -> bool {
        self@.len() == self.width() * self.height() * 3
    }

    /// The color of pixel `(row, col)`.
    pub open spec fn pixel(&self, row: int, col: int) -> ColorU8 {
        pixel_at(self@, self.width() as int, row, col)
    }

    /// A black raster of `width` by `height` pixels, or `None` where its
    /// bytes cannot be counted in a `usize`.
    pub fn new(width: usize, height: usize) -> (made: Option<PixelBuffer>)
        ensures
            made is Some <==> width * height * 3 <= usize::MAX,
            made matches Some(buffer) ==> {
                &&& buffer.wf()
                &&& buffer.spec_width() == width
                &&& buffer.spec_height() == height
                &&& buffer@ == Seq::new((width * height * 3) as nat, |i: int| 0u8)
            },
    {
        let pixels: usize = match width.checked_mul(height) {
            Some(pixels) => pixels,
            None => {
                assert(width * height * 3 >= width * height) by (nonlinear_arith);
                return None;
            },
        };
        let bytes: usize = match pixels.checked_mul(3) {
            Some(bytes) => bytes,
            None => { return None; },
        };
        let data: Vec<u8> = vec![0u8; bytes];
        assert(data@ =~= Seq::new((width * height * 3) as nat, |i: int| 0u8));
        Some(PixelBuffer { width, height, data })
    }

    /// The number of pixels in a row.
    #[verifier::when_used_as_spec(spec_width)]
    pub fn width(&self) -> (width: usize)
        ensures
            width == self.spec_width(),
    {
        self.width
    }

    /// The number of rows.
    #[verifier::when_used_as_spec(spec_height)]
    pub fn height(&self) -> (height: usize)
        ensures
            height == self.spec_height(),
    {
        self.height
    }

    /// Where the red byte of pixel `(row, col)` stands.
    fn index(&self, row: usize, col: usize) -> (at: usize)
        requires
            self.wf(),
            row < self.height(),
            col < self.width(),
        ensures
            at == offset(self.width() as int, row as int, col as int),
            at + 3 <= self@.len() <= usize::MAX,
    {
        let bytes: usize = self.data.len();
        proof {
            let pixels = self.width as int * self.height as int;
            lemma_offset_in_bounds(
                self.width as int,
                self.height as int,
                row as int,
                col as int,
            );
            assert(pixels * 3 == bytes);
            assert(row * self.width + col < pixels);
        }
        (row * self.width + col) * 3
    }

    /// The bytes of the raster, row 0 first.
    pub fn bytes(&self) -> (bytes: &[u8])
        ensures
            bytes@ == self@,
    {
        self.data.as_slice()
    }

    /// The color of pixel `(row, col)`.
    pub fn get(&self, row: usize, col: usize) -> (color: ColorU8)
        requires
            self.wf(),
            row < self.height(),
            col < self.width(),
        ensures
            color == self.pixel(row as int, col as int),
    {
        let at: usize = self.index(row, col);
        ColorU8::new(self.data[at], self.data[at + 1], self.data[at + 2])
    }

    /// Gives pixel `(row, col)` the color `color` and leaves every other
    /// byte as it was.
    pub fn set(&mut self, row: usize, col: usize, color: ColorU8)
        requires
            old(self).wf(),
            row < old(self).height(),
            col < old(self).width(),
        ensures
            final(self).wf(),
            final(self).width() == old(self).width(),
            final(self).height() == old(self).height(),
            final(self)@ == with_pixel(
                old(self)@,
                offset(old(self).width() as int, row as int, col as int),
                color,
            ),
            final(self).pixel(row as int, col as int) == color,
            forall|r: int, c: int|
                0 <= r < old(self).height() && 0 <= c < old(self).width() && (r, c) != (
                    row as int,
                    col as int,
                ) ==> #[trigger] final(self).pixel(r, c) == old(self).pixel(r, c),
    {
        let at: usize = self.index(row, col);
        let ghost before = *self;
        self.data.set(at, color.0.0);
        self.data.set(at + 1, color.0.1);
        self.data.set(at + 2, color.0.2);
        proof {
            assert forall|r: int, c: int|
                0 <= r < self.height() && 0 <= c < self.width() && (r, c) != (
                    row as int,
                    col as int,
                ) implies #[trigger] self.pixel(r, c) == before.pixel(r, c) by {
                lemma_pixels_disjoint(self.width() as int, r, c, row as int, col as int);
                lemma_offset_in_bounds(self.width() as int, self.height() as int, r, c);
            }
        }
    }

    /// Gives the pixels of row `row` the colors `pixels`, from left to
    /// right, and leaves every other row as it was.
    pub fn set_row(&mut self, row: usize, pixels: &[ColorU8])
        requires
            old(self).wf(),
            row < old(self).height(),
            pixels.len() == old(self).width(),
        ensures
            final(self).wf(),
            final(self).width() == old(self).width(),
            final(self).height() == old(self).height(),
            final(self)@ == old(self)@.subrange(
                0,
                offset(old(self).width() as int, row as int, 0),
            ) + row_bytes(pixels@) + old(self)@.subrange(
                offset(old(self).width() as int, row as int, 0) + old(self).width() * 3,
                old(self)@.len() as int,
            ),
            forall|col: int|
                0 <= col < old(self).width() ==> #[trigger] final(self).pixel(row as int, col)
                    == pixels[col],
            forall|r: int, c: int|
                0 <= r < old(self).height() && r != row && 0 <= c < old(self).width()
                    ==> #[trigger] final(self).pixel(r, c) == old(self).pixel(r, c),
    {
        let ghost start = offset(self.width as int, row as int, 0);
        let ghost before = self@;
        proof {
            lemma_row_in_bounds(self.width as int, self.height as int, row as int);
            assert(row_bytes(pixels@.take(0)) =~= Seq::<u8>::empty());
            assert(self@ =~= before.subrange(0, start) + row_bytes(pixels@.take(0))
                + before.subrange(start, before.len() as int));
        }
        let mut col: usize = 0;
        while col < self.width
            invariant
                self.wf(),
                self.width() == old(self).width(),
                self.height() == old(self).height(),
                row < self.height(),
                pixels.len() == self.width(),
                col <= self.width(),
                before == old(self)@,
                before.len() == self@.len(),
                start == offset(self.width() as int, row as int, 0),
                0 <= start,
                start + self.width() * 3 <= before.len(),
                self@ == before.subrange(0, start) + row_bytes(pixels@.take(col as int))
                    + before.subrange(start + col * 3, before.len() as int),
            decreases self.width() - col,
        {
            self.set(row, col, pixels[col]);
            proof {
                let at = start + col * 3;
                assert(at == offset(self.width as int, row as int, col as int));
                let grown = row_bytes(pixels@.take(col + 1));
                assert(self@ =~= before.subrange(0, start) + grown + before.subrange(
                    at + 3,
                    before.len() as int,
                ));
            }
            col += 1;
        }
        proof {
            assert(pixels@.take(col as int) =~= pixels@);
            assert forall|c: int| 0 <= c < self.width() implies #[trigger] self.pixel(
                row as int,
                c,
            ) == pixels[c] by {
                lemma_offset_in_bounds(self.width as int, self.height as int, row as int, c);
                let at = offset(self.width as int, row as int, c);
                assert(at == start + c * 3);
                let bytes = row_bytes(pixels@);
                assert(self@[at] == bytes[c * 3]);
                assert(self@[at + 1] == bytes[c * 3 + 1]);
                assert(self@[at + 2] == bytes[c * 3 + 2]);
            }
            assert forall|r: int, c: int|
                0 <= r < self.height() && r != row && 0 <= c < self.width() implies #[trigger] self.pixel(
                r,
                c,
            ) == old(self).pixel(r, c) by {
                lemma_offset_in_bounds(self.width as int, self.height as int, r, c);
                if r < row {
                    lemma_rows_disjoint(self.width as int, r, row as int);
                } else {
                    lemma_rows_disjoint(self.width as int, row as int, r);
                }
            }
        }
    }
}

} // verus!
