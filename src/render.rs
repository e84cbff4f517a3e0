use vstd::prelude::*;

use image::imageops::{resize, FilterType};
use image::{ImageBuffer, ImageFormat, Luma};

use crate::error::Error;
use crate::mapping::{
    char_for_key, dark_char, dark_key, first_reaching, has_char, light_char, light_key,
    lookup_index, FontData, Mapping, SUBPIXELS,
};
use crate::prune::lemma_first_reaching_range;

verus! {

#[verifier::external_type_specification]
#[verifier::external_body]
pub struct ExImageFormat(ImageFormat);

/// What an `Image` stands for: its size in pixels and its luminance
/// samples, row by row, each in units of 1/`FULL`.
pub struct ImageModel {
    pub width: nat,
    pub height: nat,
    pub pixels: Seq<u16>,
}

/// A grid of luminance samples, row by row; `FULL` is white.
#[derive(Debug)]
pub struct Image {
    width: u32,
    height: u32,
    pixels: Vec<u16>,
}

impl View for Image {
    type V = ImageModel;

    closed spec fn view(&self) -> ImageModel {
        ImageModel { width: self.width as nat, height: self.height as nat, pixels: self.pixels@ }
    }
}

/// The width and height of an image file, where the file can be decoded.
/// Only these depend on the bytes alone: the samples of a JPEG may differ
/// slightly between machines, as the decoder picks its arithmetic by CPU.
pub uninterp spec fn decoded_size(bytes: Seq<u8>) -> Option<(u32, u32)>;

/// The same, for a file read as the given format.
pub uninterp spec fn decoded_size_as(bytes: Seq<u8>, format: ImageFormat) -> Option<(u32, u32)>;

/// Samples of a `width` by `height` grid resized to `new_width` by
/// `new_height` with nearest-neighbour sampling.
pub uninterp spec fn nearest_resized(
    pixels: Seq<u16>,
    width: u32,
    height: u32,
    new_width: u32,
    new_height: u32,
) -> Seq<u16>;

/// Relies on `image::load_from_memory`, which guesses the format from the
/// bytes and decodes them; the result is taken as 16-bit luminance, whose
/// buffer holds one sample per pixel.
#[verifier::external_body]
fn decode_guessed(bytes: &[u8]) -> (r: Result<(u32, u32, Vec<u16>), String>)
    ensures
        r is Ok <==> decoded_size(bytes@) is Some,
        r matches Ok((w, h, p)) ==> decoded_size(bytes@) == Some((w, h)) && p@.len() == w * h,
{
    match image::load_from_memory(bytes) {
        Ok(img) => {
            let luma = img.to_luma16();
            Ok((luma.width(), luma.height(), luma.into_raw()))
        },
        Err(e) => Err(format!("{}", e)),
    }
}

/// Relies on `image::load_from_memory_with_format`, which decodes the bytes
/// as `format`; the result is taken as 16-bit luminance, whose buffer holds
/// one sample per pixel.
#[verifier::external_body]
fn decode_as(bytes: &[u8], format: ImageFormat) -> (r: Result<(u32, u32, Vec<u16>), String>)
    ensures
        r is Ok <==> decoded_size_as(bytes@, format) is Some,
        r matches Ok((w, h, p)) ==> decoded_size_as(bytes@, format) == Some((w, h)) && p@.len() == w
            * h,
{
    match image::load_from_memory_with_format(bytes, format) {
        Ok(img) => {
            let luma = img.to_luma16();
            Ok((luma.width(), luma.height(), luma.into_raw()))
        },
        Err(e) => Err(format!("{}", e)),
    }
}

/// Relies on `image::imageops::resize` with `FilterType::Nearest`: the
/// result is a `new_width` by `new_height` buffer, one sample per pixel.
#[verifier::external_body]
fn resize_nearest(pixels: &Vec<u16>, width: u32, height: u32, new_width: u32, new_height: u32) -> (r:
    Vec<u16>)
    requires
        pixels@.len() == width * height,
        width > 0,
        height > 0,
        new_width > 0,
        new_height > 0,
    ensures
        r@ == nearest_resized(pixels@, width, height, new_width, new_height),
        r@.len() == new_width * new_height,
{
    let buf: ImageBuffer<Luma<u16>, Vec<u16>> = ImageBuffer::from_raw(width, height, pixels.clone())
        .expect("buffer holds width * height samples");
    resize(&buf, new_width, new_height, FilterType::Nearest).into_raw()
}

impl Image {
    #[verifier::type_invariant]
    spec fn inv(self) -> bool {
        self.pixels@.len() == self.width * self.height
    }

    /// An image of `width` by `height` samples given row by row, or `None`
    /// when the number of samples is not `width * height`.
    pub fn from_luma(width: u32, height: u32, pixels: Vec<u16>) -> (r: Option<Image>)
        ensures
            r is Some <==> pixels@.len() == width * height,
            r matches Some(img) ==> img@ == (ImageModel {
                width: width as nat,
                height: height as nat,
                pixels: pixels@,
            }),
    {
        assert((width as u64) * (height as u64) <= u64::MAX) by (nonlinear_arith)
            requires
                width <= u32::MAX,
                height <= u32::MAX,
        ;
        if (width as u64) * (height as u64) == pixels.len() as u64 {
            Some(Image { width, height, pixels })
        } else {
            None
        }
    }

    /// Decode an image file, guessing its format from its contents. The
    /// samples are the decoder's luminance, one per pixel.
    pub fn auto(bytes: &[u8]) -> (r: Result<Image, Error>)
        ensures
            r is Ok <==> decoded_size(bytes@) is Some,
            r matches Ok(img) ==> decoded_size(bytes@) == Some(
                (img@.width as u32, img@.height as u32),
            ),
            r matches Err(e) ==> e is IOError,
    {
        match decode_guessed(bytes) {
            Ok((w, h, p)) => Ok(Image { width: w, height: h, pixels: p }),
            Err(s) => Err(Error::IOError(s)),
        }
    }

    /// Decode an image file of the given format. The samples are the
    /// decoder's luminance, one per pixel.
    pub fn with_format(bytes: &[u8], format: ImageFormat) -> (r: Result<Image, Error>)
        ensures
            r is Ok <==> decoded_size_as(bytes@, format) is Some,
            r matches Ok(img) ==> decoded_size_as(bytes@, format) == Some(
                (img@.width as u32, img@.height as u32),
            ),
            r matches Err(e) ==> e is IOError,
    {
        match decode_as(bytes, format) {
            Ok((w, h, p)) => Ok(Image { width: w, height: h, pixels: p }),
            Err(s) => Err(Error::IOError(s)),
        }
    }

    /// Width and height in pixels.
    pub fn geometry(&self) -> (r: (u32, u32))
        ensures
            r.0 == self@.width,
            r.1 == self@.height,
    {
        (self.width, self.height)
    }
}

/// Text columns: how many cells of the font fit across the image.
pub open spec fn grid_cols(img: ImageModel, m: Mapping) -> nat {
    (img.width * (SUBPIXELS as nat) / m.width) as nat
}

/// Text rows: how many cells of the font fit down the image.
pub open spec fn grid_rows(img: ImageModel, m: Mapping) -> nat {
    (img.height * (SUBPIXELS as nat) / m.height) as nat
}

/// The character of one cell of luminance `v`.
pub open spec fn cell_char(m: Mapping, v: u16, inverted: bool) -> char {
    if inverted {
        dark_char(m, v as int)
    } else {
        light_char(m, v as int)
    }
}

/// Row `r` of the text: one character per cell, then a line feed.
pub open spec fn render_row(cells: Seq<u16>, cols: nat, r: int, m: Mapping, inverted: bool) -> Seq<
    char,
> {
    Seq::new(cols, |c: int| cell_char(m, cells[r * cols + c], inverted)).push('\n')
}

/// The first `rows` rows of the text, top to bottom.
pub open spec fn render_rows(cells: Seq<u16>, cols: nat, rows: nat, m: Mapping, inverted: bool) -> Seq<
    char,
>
    decreases rows,
{
    if rows == 0 {
        Seq::empty()
    } else {
        render_rows(cells, cols, (rows - 1) as nat, m, inverted) + render_row(
            cells,
            cols,
            rows - 1,
            m,
            inverted,
        )
    }
}

/// The text of an image in a font: empty where no whole cell fits either
/// way, else the image resized to one sample per cell, row by row.
pub open spec fn rendered(img: ImageModel, m: Mapping, inverted: bool) -> Seq<char> {
    let cols = grid_cols(img, m);
    let rows = grid_rows(img, m);
    if cols == 0 || rows == 0 {
        Seq::empty()
    } else {
        render_rows(
            nearest_resized(
                img.pixels,
                img.width as u32,
                img.height as u32,
                cols as u32,
                rows as u32,
            ),
            cols,
            rows,
            m,
            inverted,
        )
    }
}

proof fn lemma_rows_shape(cells: Seq<u16>, cols: nat, rows: nat, m: Mapping, inverted: bool)
    ensures
        render_rows(cells, cols, rows, m, inverted).len() == rows * (cols + 1),
        forall|r: int, c: int|
            0 <= r < rows && 0 <= c <= cols ==> #[trigger] render_rows(cells, cols, rows, m, inverted)[r
                * (cols + 1) + c] == if c == cols {
                '\n'
            } else {
                cell_char(m, cells[r * cols + c], inverted)
            },
    decreases rows,
{
    if rows == 0 {
        assert(rows * (cols + 1) == 0) by (nonlinear_arith)
            requires
                rows == 0,
        ;
    } else {
        let p = (rows - 1) as nat;
        lemma_rows_shape(cells, cols, p, m, inverted);
        let prev = render_rows(cells, cols, p, m, inverted);
        let row = render_row(cells, cols, p as int, m, inverted);
        let all = render_rows(cells, cols, rows, m, inverted);
        assert(all == prev + row);
        assert(p * (cols + 1) + (cols + 1) == rows * (cols + 1)) by (nonlinear_arith)
            requires
                p + 1 == rows,
        ;
        assert forall|r: int, c: int| 0 <= r < rows && 0 <= c <= cols implies #[trigger] all[r * (
        cols + 1) + c] == if c == cols {
            '\n'
        } else {
            cell_char(m, cells[r * cols + c], inverted)
        } by {
            if r < p {
                assert(r * (cols + 1) + c < p * (cols + 1)) by (nonlinear_arith)
                    requires
                        r < p,
                        c <= cols,
                ;
                assert(all[r * (cols + 1) + c] == prev[r * (cols + 1) + c]);
            } else {
                assert(r * (cols + 1) + c - prev.len() == c) by (nonlinear_arith)
                    requires
                        r == p,
                        prev.len() == p * (cols + 1),
                ;
                assert(all[r * (cols + 1) + c] == row[c]);
            }
        }
    }
}

/// The character of every cell is one of the mapping's.
pub proof fn lemma_cell_char_in_mapping(m: Mapping, v: u16, inverted: bool)
    requires
        m.wf(),
    ensures
        has_char(m.values, cell_char(m, v, inverted)),
{
    let key = if inverted {
        dark_key(m, v as int)
    } else {
        light_key(m, v as int)
    };
    lemma_first_reaching_range(m.values, m.divisor as int, key);
    let i = lookup_index(m.values, m.divisor as int, key);
    assert(m.values[i].chr == char_for_key(m, key));
}

/// The text of an image has `rows` lines, each of `cols` characters of
/// the mapping followed by a line feed, where `rows` and `cols` are how many
/// font cells fit down and across the image (when no column fits, there is
/// no text at all).
pub proof fn lemma_render_shape(img: ImageModel, m: Mapping, inverted: bool)
    requires
        m.wf(),
        grid_cols(img, m) > 0 || grid_rows(img, m) == 0,
    ensures
        rendered(img, m, inverted).len() == grid_rows(img, m) * (grid_cols(img, m) + 1),
        forall|r: int|
            0 <= r < grid_rows(img, m) ==> #[trigger] rendered(img, m, inverted)[r * (grid_cols(img, m)
                + 1) + grid_cols(img, m)] == '\n',
        forall|r: int, c: int|
            0 <= r < grid_rows(img, m) && 0 <= c < grid_cols(img, m) ==> has_char(
                m.values,
                #[trigger] rendered(img, m, inverted)[r * (grid_cols(img, m) + 1) + c],
            ),
{
    let cols = grid_cols(img, m);
    let rows = grid_rows(img, m);
    if rows == 0 {
        assert(rows * (cols + 1) == 0) by (nonlinear_arith)
            requires
                rows == 0,
        ;
    } else {
        let cells = nearest_resized(img.pixels, img.width as u32, img.height as u32, cols as u32, rows as u32);
        lemma_rows_shape(cells, cols, rows, m, inverted);
        let t = rendered(img, m, inverted);
        assert forall|r: int| 0 <= r < rows implies #[trigger] t[r * (cols + 1) + cols] == '\n' by {
            assert(t[r * (cols + 1) + cols] == render_rows(cells, cols, rows, m, inverted)[r * (cols + 1) + cols]);
        }
        assert forall|r: int, c: int| 0 <= r < rows && 0 <= c < cols implies has_char(
            m.values,
            #[trigger] t[r * (cols + 1) + c],
        ) by {
            assert(t[r * (cols + 1) + c] == render_rows(cells, cols, rows, m, inverted)[r * (cols + 1) + c]);
            lemma_cell_char_in_mapping(m, cells[r * cols + c], inverted);
        }
    }
}

/// Columns and rows of text that an image gives in a font.
pub fn grid_size(img: &Image, font: &FontData) -> (r: (u64, u64))
    ensures
        r.0 == grid_cols(img@, font@),
        r.1 == grid_rows(img@, font@),
{
    font.lemma_wf();
    let (w, h) = img.geometry();
    let (fw, fh) = font.geometry();
    ((w as u64) * (SUBPIXELS as u64) / (fw as u64), (h as u64) * (SUBPIXELS as u64) / (fh as u64))
}

/// Append the text of `img` to `out`, choosing characters with
/// `FontData::pixel_inv` if `inverted`, else with `FontData::pixel`.
fn render_into(img: &Image, font: &FontData, inverted: bool, out: &mut Vec<char>)
    requires
        grid_cols(img@, font@) <= u32::MAX,
        grid_rows(img@, font@) <= u32::MAX,
    ensures
        final(out)@ == old(out)@ + rendered(img@, font@, inverted),
{
    proof {
        use_type_invariant(img);
    }
    font.lemma_wf();
    let (cols, rows) = grid_size(img, font);
    if cols == 0 || rows == 0 {
        assert(old(out)@ + Seq::<char>::empty() =~= old(out)@);
        return;
    }
    assert(img.width > 0 && img.height > 0) by {
        let fw = font@.width as int;
        let fh = font@.height as int;
        assert(forall|a: int, b: int| a == 0 && b > 0 ==> #[trigger] (a / b) == 0) by (nonlinear_arith);
        if img.width == 0 {
            assert(cols == (0int * SUBPIXELS) / fw);
        }
        if img.height == 0 {
            assert(rows == (0int * SUBPIXELS) / fh);
        }
    }
    let cells = resize_nearest(&img.pixels, img.width, img.height, cols as u32, rows as u32);
    let n_cells = cells.len();
    assert(cols * rows <= u64::MAX) by (nonlinear_arith)
        requires
            cols <= u32::MAX,
            rows <= u32::MAX,
    ;
    let ghost start = old(out)@;
    let mut r: u64 = 0;
    while r < rows
        invariant
            0 < cols,
            cols <= u32::MAX,
            rows <= u32::MAX,
            n_cells == cells@.len(),
            r <= rows,
            cells@.len() == cols * rows,
            out@ == start + render_rows(cells@, cols as nat, r as nat, font@, inverted),
        decreases rows - r,
    {
        let ghost before = out@;
        let mut c: u64 = 0;
        while c < cols
            invariant
                0 < cols,
                cols <= u32::MAX,
            rows <= u32::MAX,
            n_cells == cells@.len(),
                r < rows,
                c <= cols,
                cells@.len() == cols * rows,
                out@.len() == before.len() + c,
                out@.take(before.len() as int) == before,
                forall|k: int|
                    0 <= k < c ==> #[trigger] out@[before.len() + k] == cell_char(
                        font@,
                        cells@[r * cols + k],
                        inverted,
                    ),
            decreases cols - c,
        {
            assert(r * cols + c < cols * rows) by (nonlinear_arith)
                requires
                    r < rows,
                    c < cols,
            ;
            let v = cells[(r * cols + c) as usize];
            let ch = if inverted {
                font.pixel_inv(v as i32)
            } else {
                font.pixel(v as i32)
            };
            out.push(ch);
            assert(out@.take(before.len() as int) =~= before);
            c = c + 1;
        }
        out.push('\n');
        let ghost row = render_row(cells@, cols as nat, r as int, font@, inverted);
        assert forall|k: int| 0 <= k < out@.len() implies out@[k] == (before + row)[k] by {
            if k < before.len() {
                assert(out@.take(before.len() as int)[k] == out@[k]);
            } else if k < before.len() + cols {
                let j = k - before.len();
                assert(out@[before.len() + j] == cell_char(font@, cells@[r * cols + j], inverted));
            }
        }
        assert(out@ =~= before + row);
        r = r + 1;
    }
}

/// Append the text of `img` in `font` to `out`, light text on a dark
/// background: `floor(W / w)` characters per line and `floor(H / h)` lines,
/// each ended by a line feed, for an image of `W` by `H` pixels and cells of
/// `w` by `h`.
pub fn write(img: &Image, font: &FontData, out: &mut Vec<char>)
    requires
        grid_cols(img@, font@) <= u32::MAX,
        grid_rows(img@, font@) <= u32::MAX,
    ensures
        final(out)@ == old(out)@ + rendered(img@, font@, false),
{
    render_into(img, font, false, out)
}

/// Append the text of `img` in `font` to `out`, dark text on a light
/// background; the layout is that of `write`.
pub fn write_inverted(img: &Image, font: &FontData, out: &mut Vec<char>)
    requires
        grid_cols(img@, font@) <= u32::MAX,
        grid_rows(img@, font@) <= u32::MAX,
    ensures
        final(out)@ == old(out)@ + rendered(img@, font@, true),
{
    render_into(img, font, true, out)
}

} // verus!
