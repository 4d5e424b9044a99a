//! The pixel buffer and its plain-text serialisation.
//!
//! A pixel is held as the three integers that the text format prints. The
//! buffer is a rectangular grid of such pixels, top row first, whose declared
//! width and height always agree with the grid.

use crate::ascii::{LETTER_P, LINE_FEED, MINUS, SPACE};
use crate::decimal::{
    decimal_int, decimal_nat, digit, digit_byte, lemma_decimal_nat_digits, push_decimal_int,
    push_decimal_nat,
};
use vstd::prelude::*;

verus! {

/// One pixel: the red, green and blue channel as the writer prints them.
/// Channels of colours inside the unit cube lie in `0..=255`; the type admits
/// the out-of-range values that colours outside of it give.
#[derive(Clone, Copy, Debug, PartialEq, Eq, Structural)]
pub struct Pixel {
    pub r: i16,
    pub g: i16,
    pub b: i16,
}

impl Pixel {
    pub fn new(r: i16, g: i16, b: i16) -> (p: Pixel)
        ensures
            p == (Pixel { r, g, b }),
    {
        Pixel { r, g, b }
    }
}

/// Why an image could not be built.
#[derive(Clone, Copy, Debug, PartialEq, Eq, Structural)]
pub enum ImageError {
    /// The grid does not have `height` rows of `width` pixels each.
    InvalidDimensions,
}

impl ImageError {
    /// The error as a sentence for the user.
    pub fn message(&self) -> (s: &'static str)
        ensures
            s@ == "Invalid colors length"@,
    {
        match self {
            ImageError::InvalidDimensions => "Invalid colors length",
        }
    }
}

/// What an image is: its declared size and its rows, top row first.
pub struct ImageView {
    pub width: nat,
    pub height: nat,
    pub rows: Seq<Seq<Pixel>>,
}

/// The grid has `height` rows and each of them has `width` pixels.
pub open spec fn fits(width: nat, height: nat, rows: Seq<Seq<Pixel>>) -> bool {
    &&& rows.len() == height
    &&& forall|i: int| 0 <= i < rows.len() ==> (#[trigger] rows[i]).len() == width
}

impl ImageView {
    /// The declared size agrees with the grid.
    pub open spec fn wf(self) -> bool {
        fits(self.width, self.height, self.rows)
    }
}

/// The rows of a grid of vectors, each as a sequence.
pub open spec fn grid_of(colors: Seq<Vec<Pixel>>) -> Seq<Seq<Pixel>> {
    Seq::new(colors.len(), |i: int| colors[i]@)
}

/// The three header lines: the format tag `P3`, then width and height with a
/// space between them, then the greatest channel value, `255`.
pub open spec fn header_text(width: nat, height: nat) -> Seq<u8> {
    seq![LETTER_P, digit_byte(3), LINE_FEED] + decimal_nat(width) + seq![SPACE] + decimal_nat(
        height,
    ) + seq![LINE_FEED, digit_byte(2), digit_byte(5), digit_byte(5), LINE_FEED]
}

/// One line for one pixel: the three channels in decimal, a space between
/// them and a line feed at the end.
pub open spec fn pixel_text(p: Pixel) -> Seq<u8> {
    decimal_int(p.r as int) + seq![SPACE] + decimal_int(p.g as int) + seq![SPACE] + decimal_int(
        p.b as int,
    ) + seq![LINE_FEED]
}

/// The lines of a row's pixels, left to right.
pub open spec fn row_text(row: Seq<Pixel>) -> Seq<u8>
    decreases row.len(),
{
    if row.len() == 0 {
        Seq::empty()
    } else {
        row_text(row.drop_last()) + pixel_text(row.last())
    }
}

/// The lines of all rows, in the order in which the grid holds them.
pub open spec fn grid_text(rows: Seq<Seq<Pixel>>) -> Seq<u8>
    decreases rows.len(),
{
    if rows.len() == 0 {
        Seq::empty()
    } else {
        grid_text(rows.drop_last()) + row_text(rows.last())
    }
}

/// The whole file: the header, then one line for each pixel.
pub open spec fn ppm_text(image: ImageView) -> Seq<u8> {
    header_text(image.width, image.height) + grid_text(image.rows)
}

/// The picture that `Image::default` draws: 256 by 256 pixels, red growing
/// from left to right, green falling from the top row to the bottom one, and a
/// constant blue.
pub open spec fn gradient_view() -> ImageView {
    ImageView {
        width: 256,
        height: 256,
        rows: Seq::new(
            256,
            |row: int|
                Seq::new(256, |col: int| Pixel { r: col as i16, g: (255 - row) as i16, b: 63i16 }),
        ),
    }
}

/// A rectangular buffer of pixels, rows first.
#[derive(Debug)]
pub struct Image {
    width: u32,
    height: u32,
    colors: Vec<Vec<Pixel>>,
}

impl View for Image {
    type V = ImageView;

    closed spec fn view(&self) -> ImageView {
        ImageView {
            width: self.width as nat,
            height: self.height as nat,
            rows: grid_of(self.colors@),
        }
    }
}

/// Appends the line of one pixel to `out`.
fn push_pixel(out: &mut Vec<u8>, p: Pixel)
    ensures
        final(out)@ == old(out)@ + pixel_text(p),
{
    push_decimal_int(out, p.r as i64);
    out.push(SPACE);
    push_decimal_int(out, p.g as i64);
    out.push(SPACE);
    push_decimal_int(out, p.b as i64);
    out.push(LINE_FEED);
    assert(out@ =~= old(out)@ + pixel_text(p));
}

/// Appends the lines of a row to `out`.
fn push_row(out: &mut Vec<u8>, row: &Vec<Pixel>)
    ensures
        final(out)@ == old(out)@ + row_text(row@),
{
    let mut j: usize = 0;
    assert(old(out)@ + row_text(row@.take(0)) =~= old(out)@);
    while j < row.len()
        invariant
            j <= row.len(),
            out@ == old(out)@ + row_text(row@.take(j as int)),
        decreases row.len() - j,
    {
        push_pixel(out, row[j]);
        proof {
            let next = row@.take(j + 1);
            assert(next.drop_last() =~= row@.take(j as int));
            assert(next.last() == row@[j as int]);
            assert(out@ =~= old(out)@ + row_text(next));
        }
        j += 1;
    }
    assert(row@.take(row.len() as int) =~= row@);
}

/// A copy of a row.
fn copy_row(row: &Vec<Pixel>) -> (out: Vec<Pixel>)
    ensures
        out@ == row@,
{
    let mut out: Vec<Pixel> = Vec::new();
    let mut j: usize = 0;
    while j < row.len()
        invariant
            j <= row.len(),
            out@ == row@.take(j as int),
        decreases row.len() - j,
    {
        out.push(row[j]);
        assert(out@ =~= row@.take(j + 1));
        j += 1;
    }
    assert(row@.take(row.len() as int) =~= row@);
    out
}

impl Image {
    #[verifier::type_invariant]
    spec fn inv(self) -> bool {
        fits(self.width as nat, self.height as nat, grid_of(self.colors@))
    }

    /// An image of the given size over the given grid. It fails when the
    /// grid does not have `height` rows or one of its rows does not have
    /// `width` pixels, and only then.
    pub fn new(width: u32, height: u32, colors: Vec<Vec<Pixel>>) -> (res: Result<Image, ImageError>)
        ensures
            fits(width as nat, height as nat, grid_of(colors@)) ==> (res is Ok && res.unwrap()@ == (
            ImageView { width: width as nat, height: height as nat, rows: grid_of(colors@) })),
            !fits(width as nat, height as nat, grid_of(colors@)) ==> res matches Err(
                ImageError::InvalidDimensions,
            ),
    {
        let ghost rows = grid_of(colors@);
        if colors.len() as u64 != height as u64 {
            return Err(ImageError::InvalidDimensions);
        }
        let mut i: usize = 0;
        while i < colors.len()
            invariant
                i <= colors.len(),
                rows == grid_of(colors@),
                forall|k: int| 0 <= k < i ==> (#[trigger] rows[k]).len() == width,
            decreases colors.len() - i,
        {
            if colors[i].len() as u64 != width as u64 {
                assert(rows[i as int].len() != width);
                return Err(ImageError::InvalidDimensions);
            }
            i += 1;
        }
        Ok(Image { width, height, colors })
    }

    /// The declared number of pixels in a row.
    pub fn width(&self) -> (w: u32)
        ensures
            w == self@.width,
    {
        self.width
    }

    /// The declared number of rows.
    pub fn height(&self) -> (h: u32)
        ensures
            h == self@.height,
    {
        self.height
    }

    /// The text of the image file, byte for byte.
    pub fn write(&self) -> (out: Vec<u8>)
        ensures
            out@ == ppm_text(self@),
            self@.wf(),
    {
        proof {
            use_type_invariant(self);
        }
        let mut out: Vec<u8> = Vec::new();
        out.push(LETTER_P);
        out.push(digit(3));
        out.push(LINE_FEED);
        push_decimal_nat(&mut out, self.width as u64);
        out.push(SPACE);
        push_decimal_nat(&mut out, self.height as u64);
        out.push(LINE_FEED);
        out.push(digit(2));
        out.push(digit(5));
        out.push(digit(5));
        out.push(LINE_FEED);
        let ghost header = header_text(self.width as nat, self.height as nat);
        let ghost rows = grid_of(self.colors@);
        assert(out@ =~= header);
        assert(header + grid_text(rows.take(0)) =~= header);
        let mut i: usize = 0;
        while i < self.colors.len()
            invariant
                i <= self.colors.len(),
                rows == grid_of(self.colors@),
                out@ == header + grid_text(rows.take(i as int)),
            decreases self.colors.len() - i,
        {
            push_row(&mut out, &self.colors[i]);
            proof {
                let next = rows.take(i + 1);
                assert(next.drop_last() =~= rows.take(i as int));
                assert(next.last() == self.colors@[i as int]@);
                assert(out@ =~= header + grid_text(next));
            }
            i += 1;
        }
        assert(rows.take(rows.len() as int) =~= rows);
        out
    }

    /// A copy of the grid.
    pub fn colors(&self) -> (out: Vec<Vec<Pixel>>)
        ensures
            grid_of(out@) == self@.rows,
            self@.wf(),
    {
        proof {
            use_type_invariant(self);
        }
        let mut out: Vec<Vec<Pixel>> = Vec::new();
        let mut i: usize = 0;
        while i < self.colors.len()
            invariant
                i <= self.colors.len(),
                out.len() == i,
                forall|k: int| 0 <= k < i ==> (#[trigger] out@[k])@ == self.colors@[k]@,
            decreases self.colors.len() - i,
        {
            let row = copy_row(&self.colors[i]);
            out.push(row);
            i += 1;
        }
        assert(grid_of(out@) =~= grid_of(self.colors@));
        out
    }
}

impl Default for Image {
    /// The test picture of `gradient_view`.
    fn default() -> (img: Image)
        ensures
            img@ == gradient_view(),
    {
        let mut colors: Vec<Vec<Pixel>> = Vec::new();
        let mut row: i16 = 0;
        while row < 256
            invariant
                0 <= row <= 256,
                colors.len() == row,
                forall|k: int| 0 <= k < row ==> (#[trigger] colors@[k])@ == gradient_view().rows[k],
            decreases 256 - row,
        {
            let mut line: Vec<Pixel> = Vec::new();
            let mut col: i16 = 0;
            while col < 256
                invariant
                    0 <= row < 256,
                    0 <= col <= 256,
                    line.len() == col,
                    forall|k: int|
                        0 <= k < col ==> #[trigger] line@[k] == (Pixel {
                            r: k as i16,
                            g: (255 - row) as i16,
                            b: 63i16,
                        }),
                decreases 256 - col,
            {
                line.push(Pixel { r: col, g: 255 - row, b: 63 });
                col += 1;
            }
            assert(line@ =~= gradient_view().rows[row as int]);
            colors.push(line);
            row += 1;
        }
        assert(grid_of(colors@) =~= gradient_view().rows);
        Image { width: 256, height: 256, colors }
    }
}

/// How many line feeds `text` holds, which is the number of its lines where
/// each line ends in one.
pub open spec fn line_count(text: Seq<u8>) -> nat
    decreases text.len(),
{
    if text.len() == 0 {
        0
    } else {
        line_count(text.drop_last()) + if text.last() == LINE_FEED {
            1nat
        } else {
            0nat
        }
    }
}

proof fn lemma_line_count_push(text: Seq<u8>, byte: u8)
    ensures
        line_count(text.push(byte)) == line_count(text) + if byte == LINE_FEED {
            1nat
        } else {
            0nat
        },
{
    assert(text.push(byte).drop_last() =~= text);
}

proof fn lemma_line_count_concat(a: Seq<u8>, b: Seq<u8>)
    ensures
        line_count(a + b) == line_count(a) + line_count(b),
    decreases b.len(),
{
    if b.len() == 0 {
        assert(a + b =~= a);
    } else {
        assert((a + b).drop_last() =~= a + b.drop_last());
        lemma_line_count_concat(a, b.drop_last());
    }
}

proof fn lemma_line_count_none(text: Seq<u8>)
    requires
        forall|i: int| 0 <= i < text.len() ==> #[trigger] text[i] != LINE_FEED,
    ensures
        line_count(text) == 0,
    decreases text.len(),
{
    if text.len() > 0 {
        lemma_line_count_none(text.drop_last());
    }
}

proof fn lemma_decimal_int_no_line_feed(v: int)
    ensures
        line_count(decimal_int(v)) == 0,
{
    if v < 0 {
        lemma_decimal_nat_digits((-v) as nat);
        lemma_line_count_none(decimal_nat((-v) as nat));
        lemma_line_count_none(seq![MINUS]);
        lemma_line_count_concat(seq![MINUS], decimal_nat((-v) as nat));
    } else {
        lemma_decimal_nat_digits(v as nat);
        lemma_line_count_none(decimal_nat(v as nat));
    }
}

proof fn lemma_pixel_text_lines(p: Pixel)
    ensures
        line_count(pixel_text(p)) == 1,
{
    let r = decimal_int(p.r as int);
    let g = decimal_int(p.g as int);
    let b = decimal_int(p.b as int);
    lemma_decimal_int_no_line_feed(p.r as int);
    lemma_decimal_int_no_line_feed(p.g as int);
    lemma_decimal_int_no_line_feed(p.b as int);
    lemma_line_count_push(r, SPACE);
    lemma_line_count_concat(r.push(SPACE), g);
    lemma_line_count_push(r.push(SPACE) + g, SPACE);
    lemma_line_count_concat((r.push(SPACE) + g).push(SPACE), b);
    lemma_line_count_push((r.push(SPACE) + g).push(SPACE) + b, LINE_FEED);
    assert(pixel_text(p) =~= ((r.push(SPACE) + g).push(SPACE) + b).push(LINE_FEED));
}

proof fn lemma_row_text_lines(row: Seq<Pixel>)
    ensures
        line_count(row_text(row)) == row.len(),
    decreases row.len(),
{
    if row.len() > 0 {
        lemma_row_text_lines(row.drop_last());
        lemma_pixel_text_lines(row.last());
        lemma_line_count_concat(row_text(row.drop_last()), pixel_text(row.last()));
    }
}

proof fn lemma_grid_text_lines(rows: Seq<Seq<Pixel>>, width: nat)
    requires
        forall|i: int| 0 <= i < rows.len() ==> (#[trigger] rows[i]).len() == width,
    ensures
        line_count(grid_text(rows)) == rows.len() * width,
    decreases rows.len(),
{
    if rows.len() > 0 {
        let above = rows.drop_last();
        lemma_grid_text_lines(above, width);
        lemma_row_text_lines(rows.last());
        lemma_line_count_concat(grid_text(above), row_text(rows.last()));
        assert(rows.len() * width == above.len() * width + width) by (nonlinear_arith)
            requires
                rows.len() == above.len() + 1,
        ;
    } else {
        assert(rows.len() * width == 0) by (nonlinear_arith)
            requires
                rows.len() == 0,
        ;
    }
}

proof fn lemma_header_text_lines(width: nat, height: nat)
    ensures
        line_count(header_text(width, height)) == 3,
{
    let w = decimal_nat(width);
    let h = decimal_nat(height);
    let tag = Seq::<u8>::empty().push(LETTER_P).push(digit_byte(3)).push(LINE_FEED);
    lemma_line_count_push(Seq::<u8>::empty(), LETTER_P);
    lemma_line_count_push(Seq::<u8>::empty().push(LETTER_P), digit_byte(3));
    lemma_line_count_push(Seq::<u8>::empty().push(LETTER_P).push(digit_byte(3)), LINE_FEED);
    assert(line_count(tag) == 1);
    lemma_decimal_nat_digits(width);
    lemma_line_count_none(w);
    lemma_decimal_nat_digits(height);
    lemma_line_count_none(h);
    lemma_line_count_concat(tag, w);
    lemma_line_count_push(tag + w, SPACE);
    lemma_line_count_concat((tag + w).push(SPACE), h);
    let size = (tag + w).push(SPACE) + h;
    assert(line_count(size) == 1);
    lemma_line_count_push(size, LINE_FEED);
    lemma_line_count_push(size.push(LINE_FEED), digit_byte(2));
    lemma_line_count_push(size.push(LINE_FEED).push(digit_byte(2)), digit_byte(5));
    lemma_line_count_push(size.push(LINE_FEED).push(digit_byte(2)).push(digit_byte(5)), digit_byte(5));
    lemma_line_count_push(size.push(LINE_FEED).push(digit_byte(2)).push(digit_byte(5)).push(digit_byte(5)), LINE_FEED);
    assert(header_text(width, height) =~= size.push(LINE_FEED).push(digit_byte(2)).push(digit_byte(5)).push(digit_byte(5)).push(
        LINE_FEED,
    ));
}

/// The text of an image whose size agrees with its grid has three header
/// lines and then one line for each pixel.
pub proof fn lemma_ppm_text_lines(image: ImageView)
    requires
        image.wf(),
    ensures
        line_count(ppm_text(image)) == 3 + image.width * image.height,
{
    lemma_header_text_lines(image.width, image.height);
    lemma_grid_text_lines(image.rows, image.width);
    lemma_line_count_concat(header_text(image.width, image.height), grid_text(image.rows));
    assert(image.rows.len() * image.width == image.width * image.height) by (nonlinear_arith)
        requires
            image.rows.len() == image.height,
    ;
}

/// The text of a grid is the text of its upper rows followed by the text of
/// its lower rows, wherever the grid is cut.
pub proof fn lemma_grid_text_concat(upper: Seq<Seq<Pixel>>, lower: Seq<Seq<Pixel>>)
    ensures
        grid_text(upper + lower) == grid_text(upper) + grid_text(lower),
    decreases lower.len(),
{
    if lower.len() == 0 {
        assert(upper + lower =~= upper);
        assert(grid_text(upper) + grid_text(lower) =~= grid_text(upper));
    } else {
        assert((upper + lower).drop_last() =~= upper + lower.drop_last());
        lemma_grid_text_concat(upper, lower.drop_last());
        assert(grid_text(upper + lower) =~= grid_text(upper) + grid_text(lower));
    }
}

} // verus!
