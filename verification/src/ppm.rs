//! Writing a raster out as a plain-text image.
//!
//! The text opens with the line `P3`, a line with the width and the height,
//! and the line `255`, the largest value of a channel. One line for each
//! pixel follows, from the top row of the picture down and within a row from
//! left to right. Row 0 of a raster is the bottom row, so the rows come out
//! in reverse.

use vstd::prelude::*;
use vstd::string::StringExecFns;
use crate::raster::{offset, pixel_at, PixelBuffer};
use crate::text::{append_decimal, decimal, lemma_number_ends};
use crate::vec3::ColorU8;

verus! {

/// The three lines that open the text of an image `width` by `height`.
pub open spec fn header(width: nat, height: nat) -> Seq<char> {
    seq!['P', '3', '\n'] + decimal(width) + seq![' '] + decimal(height) + seq![
        '\n',
        '2',
        '5',
        '5',
        '\n',
    ]
}

/// The pixel that line `k` of the text writes: line 0 is the left end of
/// the top row.
pub open spec fn scan_pixel(data: Seq<u8>, width: int, height: int, k: int) -> ColorU8 {
    pixel_at(data, width, height - 1 - k / width, k % width)
}

/// The pixels of an image in the order of the text.
pub open spec fn scan_colors(data: Seq<u8>, width: int, height: int) -> Seq<ColorU8> {
    Seq::new((width * height) as nat, |k: int| scan_pixel(data, width, height, k))
}

/// The lines of a run of colors.
pub open spec fn lines_of(colors: Seq<ColorU8>) -> Seq<Seq<char>> {
    Seq::new(colors.len(), |k: int| colors[k].line())
}

/// The text of the image that the bytes `data` hold: the header, and after
/// it the lines of the pixels, one run of characters.
pub open spec fn image_text(data: Seq<u8>, width: int, height: int) -> Seq<char> {
    header(width as nat, height as nat) + lines_of(scan_colors(data, width, height)).flatten()
}

/// The text of the image in `buffer`.
pub fn encode(buffer: &PixelBuffer) -> (text: String)
    requires
        buffer.wf(),
    ensures
        text@ == image_text(buffer@, buffer.width() as int, buffer.height() as int),
{
    let width: usize = buffer.width();
    let height: usize = buffer.height();
    let ghost lines = lines_of(scan_colors(buffer@, width as int, height as int));
    let mut text = String::new();
    proof {
        reveal_strlit("P3\n");
        reveal_strlit(" ");
        reveal_strlit("\n255\n");
        assert("P3\n"@ =~= seq!['P', '3', '\n']);
        assert(" "@ =~= seq![' ']);
        assert("\n255\n"@ =~= seq!['\n', '2', '5', '5', '\n']);
    }
    text.append("P3\n");
    append_decimal(&mut text, width);
    text.append(" ");
    append_decimal(&mut text, height);
    text.append("\n255\n");
    proof {
        assert(text@ =~= header(width as nat, height as nat));
        assert(lines.take(0) =~= Seq::<Seq<char>>::empty());
        assert(lines.take(0).flatten() =~= Seq::<char>::empty());
        assert(text@ =~= header(width as nat, height as nat) + lines.take(0).flatten());
        assert(0 * width == 0);
    }
    let mut row: usize = height;
    while row > 0
        invariant
            buffer.wf(),
            width == buffer.width(),
            height == buffer.height(),
            row <= height,
            lines == lines_of(scan_colors(buffer@, width as int, height as int)),
            0 <= (height - row) * width <= lines.len(),
            text@ == header(width as nat, height as nat) + lines.take(
                (height - row) * width,
            ).flatten(),
        decreases row,
    {
        row -= 1;
        let ghost done = (height - 1 - row) * width;
        proof {
            assert((height - 1 - row) * width + width == (height - row) * width
                && (height - row) * width <= height * width && height * width == width * height)
                by (nonlinear_arith)
                requires
                    0 <= row < height,
                    0 <= width,
            ;
        }
        let mut col: usize = 0;
        while col < width
            invariant
                buffer.wf(),
                width == buffer.width(),
                height == buffer.height(),
                row < height,
                col <= width,
                lines == lines_of(scan_colors(buffer@, width as int, height as int)),
                done == (height - 1 - row) * width,
                0 <= done,
                done + width <= lines.len(),
                text@ == header(width as nat, height as nat) + lines.take(done + col).flatten(),
            decreases width - col,
        {
            let color = buffer.get(row, col);
            color.append_line(&mut text);
            proof {
                let k = done + col;
                vstd::arithmetic::div_mod::lemma_fundamental_div_mod_converse(
                    k,
                    width as int,
                    height - 1 - row,
                    col as int,
                );
                assert(lines[k] == color.line());
                assert(lines.take(k + 1) =~= lines.take(k).push(lines[k]));
                lines.take(k).lemma_flatten_push(lines[k]);
            }
            col += 1;
        }
        proof {
            assert(done + width == (height - row) * width) by (nonlinear_arith)
                requires
                    done == (height - 1 - row) * width,
            ;
        }
    }
    proof {
        assert((height - 0) * width == width * height) by (nonlinear_arith);
        assert(lines.take(lines.len() as int) =~= lines);
    }
    text
}

/// The line of a color, set out as three numbers with the character that
/// closes each, before a rest.
proof fn lemma_line_unfolds(color: ColorU8, rest: Seq<char>)
    ensures
        color.line() + rest == decimal(color.0.0 as nat) + (seq![' '] + (decimal(
            color.0.1 as nat,
        ) + (seq![' '] + (decimal(color.0.2 as nat) + (seq!['\n'] + rest))))),
{
    assert(color.line() + rest =~= decimal(color.0.0 as nat) + (seq![' '] + (decimal(
        color.0.1 as nat,
    ) + (seq![' '] + (decimal(color.0.2 as nat) + (seq!['\n'] + rest))))));
}

/// A line ends where its line feed stands: two texts that are equal, and
/// each made of the line of a color and a rest, have the same color and the
/// same rest.
pub proof fn lemma_line_ends(
    color: ColorU8,
    rest: Seq<char>,
    other: ColorU8,
    other_rest: Seq<char>,
)
    requires
        color.line() + rest == other.line() + other_rest,
    ensures
        color == other,
        rest == other_rest,
{
    lemma_line_unfolds(color, rest);
    lemma_line_unfolds(other, other_rest);
    let after_blue = seq!['\n'] + rest;
    let other_after_blue = seq!['\n'] + other_rest;
    let after_green = decimal(color.0.2 as nat) + after_blue;
    let other_after_green = decimal(other.0.2 as nat) + other_after_blue;
    let after_red = decimal(color.0.1 as nat) + (seq![' '] + after_green);
    let other_after_red = decimal(other.0.1 as nat) + (seq![' '] + other_after_green);
    lemma_number_ends(color.0.0 as nat, ' ', after_red, other.0.0 as nat, other_after_red);
    lemma_number_ends(color.0.1 as nat, ' ', after_green, other.0.1 as nat, other_after_green);
    lemma_number_ends(color.0.2 as nat, '\n', rest, other.0.2 as nat, other_rest);
}

/// Two runs of colors of one length with the same lines are the same run.
pub proof fn lemma_lines_determine_colors(colors: Seq<ColorU8>, others: Seq<ColorU8>)
    requires
        colors.len() == others.len(),
        lines_of(colors).flatten() == lines_of(others).flatten(),
    ensures
        colors == others,
    decreases colors.len(),
{
    if colors.len() == 0 {
        assert(colors =~= others);
    } else {
        let lines = lines_of(colors);
        let other_lines = lines_of(others);
        assert(lines.drop_first() =~= lines_of(colors.drop_first()));
        assert(other_lines.drop_first() =~= lines_of(others.drop_first()));
        assert(lines.first() == colors[0].line());
        assert(other_lines.first() == others[0].line());
        lemma_line_ends(
            colors[0],
            lines.drop_first().flatten(),
            others[0],
            other_lines.drop_first().flatten(),
        );
        lemma_lines_determine_colors(colors.drop_first(), others.drop_first());
        assert forall|k: int| 0 <= k < colors.len() implies colors[k] == others[k] by {
            if k > 0 {
                assert(colors[k] == colors.drop_first()[k - 1]);
                assert(others[k] == others.drop_first()[k - 1]);
            }
        }
        assert(colors =~= others);
    }
}

/// The text loses nothing: two images with the same text have the same
/// width, the same height and the same bytes.
pub proof fn lemma_text_determines_image(
    data: Seq<u8>,
    width: int,
    height: int,
    other_data: Seq<u8>,
    other_width: int,
    other_height: int,
)
    requires
        0 <= width,
        0 <= height,
        0 <= other_width,
        0 <= other_height,
        data.len() == width * height * 3,
        other_data.len() == other_width * other_height * 3,
        image_text(data, width, height) == image_text(other_data, other_width, other_height),
    ensures
        width == other_width,
        height == other_height,
        data == other_data,
{
    let text = image_text(data, width, height);
    let other_text = image_text(other_data, other_width, other_height);
    let body = lines_of(scan_colors(data, width, height)).flatten();
    let other_body = lines_of(scan_colors(other_data, other_width, other_height)).flatten();

    // the width, closed by a space, and the height, closed by a line feed
    let after_height = seq!['2', '5', '5', '\n'] + body;
    let other_after_height = seq!['2', '5', '5', '\n'] + other_body;
    let after_width = decimal(height as nat) + (seq!['\n'] + after_height);
    let other_after_width = decimal(other_height as nat) + (seq!['\n'] + other_after_height);
    assert(text.subrange(3, text.len() as int) =~= decimal(width as nat) + (seq![' ']
        + after_width));
    assert(other_text.subrange(3, other_text.len() as int) =~= decimal(other_width as nat) + (
    seq![' '] + other_after_width));
    lemma_number_ends(width as nat, ' ', after_width, other_width as nat, other_after_width);
    lemma_number_ends(
        height as nat,
        '\n',
        after_height,
        other_height as nat,
        other_after_height,
    );

    // the lines of the pixels
    assert(body =~= after_height.subrange(4, after_height.len() as int));
    assert(other_body =~= other_after_height.subrange(4, other_after_height.len() as int));
    let colors = scan_colors(data, width, height);
    let other_colors = scan_colors(other_data, width, height);
    lemma_lines_determine_colors(colors, other_colors);

    // the bytes of the pixels
    assert forall|i: int| 0 <= i < data.len() implies data[i] == other_data[i] by {
        lemma_scan_reaches_byte(data, width, height, i);
        lemma_scan_reaches_byte(other_data, width, height, i);
        let k = scan_place(width, height, i);
        assert(colors[k] == scan_pixel(data, width, height, k));
        assert(other_colors[k] == scan_pixel(other_data, width, height, k));
    }
    assert(data =~= other_data);
}

/// The place in the order of the text of the pixel that holds byte `at`.
pub open spec fn scan_place(width: int, height: int, at: int) -> int {
    (height - 1 - (at / 3) / width) * width + (at / 3) % width
}

/// Every byte of an image is a channel of the pixel at its place in the
/// order of the text.
pub proof fn lemma_scan_reaches_byte(data: Seq<u8>, width: int, height: int, at: int)
    requires
        0 <= width,
        0 <= height,
        data.len() == width * height * 3,
        0 <= at < data.len(),
    ensures
        0 <= scan_place(width, height, at) < width * height,
        data[at] == scan_pixel(data, width, height, scan_place(width, height, at)).channel(
            at % 3,
        ),
{
    let pixel = at / 3;
    assert(width > 0 && height > 0) by (nonlinear_arith)
        requires
            0 <= width,
            0 <= height,
            0 <= at < width * height * 3,
    ;
    assert(0 <= pixel < width * height);
    let row = pixel / width;
    let col = pixel % width;
    vstd::arithmetic::div_mod::lemma_fundamental_div_mod(pixel, width);
    vstd::arithmetic::div_mod::lemma_mod_bound(pixel, width);
    assert(pixel == width * row + col);
    assert(0 <= row < height) by (nonlinear_arith)
        requires
            pixel == width * row + col,
            0 <= col < width,
            0 <= pixel < width * height,
    ;
    let place = (height - 1 - row) * width + col;
    assert(0 <= place < width * height) by (nonlinear_arith)
        requires
            place == (height - 1 - row) * width + col,
            0 <= row < height,
            0 <= col < width,
    ;
    vstd::arithmetic::div_mod::lemma_fundamental_div_mod_converse(
        place,
        width,
        height - 1 - row,
        col,
    );
    assert(width * row == row * width) by (nonlinear_arith);
    assert(offset(width, row, col) == pixel * 3);
}

} // verus!
