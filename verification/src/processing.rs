use vstd::prelude::*;
use vstd::arithmetic::div_mod::{
    lemma_div_is_ordered, lemma_div_pos_is_pos, lemma_fundamental_div_mod,
    lemma_fundamental_div_mod_converse_div, lemma_mod_division_less_than_divisor,
    lemma_multiply_divide_lt,
};
use vstd::arithmetic::mul::{
    lemma_mul_by_zero_is_zero, lemma_mul_inequality, lemma_mul_is_commutative,
    lemma_mul_is_distributive_add, lemma_mul_is_distributive_add_other_way,
    lemma_mul_nonnegative, lemma_mul_strictly_positive, lemma_mul_upper_bound,
};
use vstd::string::{StrSliceExecFns, StringExecFns};
use crate::error::AsciiError;
use crate::pixel::{pixel_intensity, spec_pixel_intensity, PixelBuffer};
use crate::scale::{calculate_block_sizes, spec_block_height, spec_block_width, ScaleFactor};

verus! {

/// The density ramp: index 0 is the visually darkest glyph (the most ink),
/// the last index the lightest (a blank).
pub open spec fn ramp() -> Seq<char> {
    "$@B%8&WM#*oahkbdpqwmZO0QLCJUYXzcvunxrjft/\\|()1{}[]?-_+~<>i!lI;:,\"^`'. "@
}

/// The ramp holds seventy glyphs.
pub proof fn lemma_ramp_len()
    ensures
        ramp().len() == 70,
{
    reveal_strlit("$@B%8&WM#*oahkbdpqwmZO0QLCJUYXzcvunxrjft/\\|()1{}[]?-_+~<>i!lI;:,\"^`'. ");
}

/// The ramp position for a brightness: a linear map that sends [0, 255]
/// onto [0, 69], with 0 the darkest glyph.
pub open spec fn spec_ramp_index(brightness: int) -> int {
    69 * brightness / 255
}

/// Law: the brightness-to-glyph mapping is monotone.  A brighter value is
/// never sent to an earlier (darker) ramp position.
pub proof fn lemma_ramp_index_monotonic(b1: int, b2: int)
    requires
        0 <= b1 <= b2,
    ensures
        spec_ramp_index(b1) <= spec_ramp_index(b2),
{
    lemma_mul_inequality(b1, b2, 69);
    lemma_div_is_ordered(69 * b1, 69 * b2, 255);
}

/// Every brightness in [0, 255] lands inside the ramp.
pub proof fn lemma_ramp_index_in_range(brightness: int)
    requires
        0 <= brightness <= 255,
    ensures
        0 <= spec_ramp_index(brightness) <= 69,
{
    lemma_mul_inequality(brightness, 255, 69);
    lemma_div_is_ordered(69 * brightness, (69 * 255) as int, 255);
}

/// Takes a brightness from 0 to 255 and maps it to an ASCII character.
///
/// The index formula keeps every brightness inside the ramp, so the lookup
/// always succeeds; the bounds check stays as a defensive guard against a
/// corrupted ramp.
pub fn brigtness_to_ascii(brightness: u8) -> (r: Result<char, AsciiError>)
    ensures
        r matches Ok(c) && c == ramp()[spec_ramp_index(brightness as int)],
{
    let char_by_color: &str = "$@B%8&WM#*oahkbdpqwmZO0QLCJUYXzcvunxrjft/\\|()1{}[]?-_+~<>i!lI;:,\"^`'. ";
    proof {
        lemma_ramp_len();
        lemma_ramp_index_in_range(brightness as int);
    }
    let len: usize = char_by_color.unicode_len();
    let indx: usize = (len - 1) * (brightness as usize) / 255;
    if indx < len {
        Ok(char_by_color.get_char(indx))
    } else {
        Err(AsciiError::CharLookupError)
    }
}

/// The summed intensity of the `n` pixels in row `y` that start at `x0`.
pub open spec fn row_sum(img: PixelBuffer, x0: int, y: int, n: nat) -> int
    decreases n,
{
    if n == 0 {
        0
    } else {
        row_sum(img, x0, y, (n - 1) as nat) + spec_pixel_intensity(img.pix(x0 + n - 1, y))
    }
}

/// The summed intensity of the first `m` rows of the block of width `bw`
/// whose top-left pixel is (x0, y0).
pub open spec fn block_sum(img: PixelBuffer, x0: int, y0: int, bw: nat, m: nat) -> int
    decreases m,
{
    if m == 0 {
        0
    } else {
        block_sum(img, x0, y0, bw, (m - 1) as nat) + row_sum(img, x0, y0 + m - 1, bw)
    }
}

/// The average of `count` intensities summing to `sum`, rounded to the
/// nearest integer with halves rounded away from zero.
pub open spec fn rounded_average(sum: int, count: int) -> int {
    (2 * sum + count) / (2 * count)
}

/// The brightness of the block at block coordinates (bx, by): the rounded
/// average intensity of its `bw * bh` pixels.
pub open spec fn block_brightness(img: PixelBuffer, bx: int, by: int, bw: nat, bh: nat) -> int {
    rounded_average(block_sum(img, bx * bw, by * bh, bw, bh), (bw * bh) as int)
}

/// The output glyph for the block at block coordinates (bx, by).
pub open spec fn block_char(img: PixelBuffer, bx: int, by: int, bw: nat, bh: nat) -> char {
    ramp()[spec_ramp_index(block_brightness(img, bx, by, bw, bh))]
}

/// The number of block columns: the grid holds whole blocks only, never a
/// partial extra column at the right edge.
pub open spec fn blocks_across(img: PixelBuffer, bw: nat) -> nat {
    (img.spec_width() / bw as int) as nat
}

/// The number of block rows: the grid holds whole blocks only, never a
/// partial extra row at the bottom edge.
pub open spec fn blocks_down(img: PixelBuffer, bh: nat) -> nat {
    (img.spec_height() / bh as int) as nat
}

/// The terminator appended after each output row: one space, one newline.
pub open spec fn row_end() -> Seq<char> {
    seq![' ', '\n']
}

/// The first `n` glyphs of output row `by`.
pub open spec fn row_text(img: PixelBuffer, by: int, bw: nat, bh: nat, n: nat) -> Seq<char>
    decreases n,
{
    if n == 0 {
        Seq::empty()
    } else {
        row_text(img, by, bw, bh, (n - 1) as nat).push(block_char(img, n - 1 as int, by, bw, bh))
    }
}

/// The first `m` output rows, each one full row of glyphs plus the
/// terminator.
pub open spec fn rendered_rows(img: PixelBuffer, bw: nat, bh: nat, m: nat) -> Seq<char>
    decreases m,
{
    if m == 0 {
        Seq::empty()
    } else {
        rendered_rows(img, bw, bh, (m - 1) as nat)
            + row_text(img, m - 1 as int, bw, bh, blocks_across(img, bw)) + row_end()
    }
}

/// The full rendered text for an image and a block geometry: the rows in
/// top-to-bottom order.
pub open spec fn rendered(img: PixelBuffer, bw: nat, bh: nat) -> Seq<char> {
    rendered_rows(img, bw, bh, blocks_down(img, bh))
}

/// A row segment's summed intensity lies between 0 and 255 per pixel.
proof fn lemma_row_sum_bounds(img: PixelBuffer, x0: int, y: int, n: nat)
    ensures
        0 <= row_sum(img, x0, y, n) <= 255 * n,
    decreases n,
{
    if n > 0 {
        lemma_row_sum_bounds(img, x0, y, (n - 1) as nat);
    }
}

/// A block's summed intensity lies between 0 and 255 per pixel.
proof fn lemma_block_sum_bounds(img: PixelBuffer, x0: int, y0: int, bw: nat, m: nat)
    ensures
        0 <= block_sum(img, x0, y0, bw, m) <= 255 * (bw as int * m as int),
    decreases m,
{
    if m > 0 {
        lemma_block_sum_bounds(img, x0, y0, bw, (m - 1) as nat);
        lemma_row_sum_bounds(img, x0, y0 + m - 1, bw);
        lemma_mul_is_distributive_add(bw as int, m as int - 1, 1);
    }
}

/// The rounded average of `count` intensities, each at most 255, is again
/// a value in [0, 255].
proof fn lemma_rounded_average_bounds(sum: int, count: int)
    requires
        0 < count,
        0 <= sum <= 255 * count,
    ensures
        0 <= rounded_average(sum, count) <= 255,
{
    lemma_div_pos_is_pos(2 * sum + count, 2 * count);
    lemma_div_is_ordered(2 * sum + count, 511 * count, 2 * count);
    lemma_fundamental_div_mod_converse_div(511 * count, 2 * count, 255, count);
}

/// A block that stands at grid position `i` fits inside the image:
/// `i < size / b` implies `i * b + b <= size`.
proof fn lemma_block_fits(size: int, b: int, i: int)
    requires
        1 <= b,
        0 <= i < size / b,
    ensures
        i * b + b <= size,
{
    lemma_fundamental_div_mod(size, b);
    lemma_mod_division_less_than_divisor(size, b);
    lemma_mul_inequality(i + 1, size / b, b);
    lemma_mul_is_distributive_add_other_way(b, i, 1);
    lemma_mul_is_commutative(b, size / b);
}

/// Relies on String::push: it appends exactly one character at the end.
#[verifier::external_body]
fn push_char(s: &mut String, c: char)
    ensures
        final(s)@ == old(s)@.push(c),
{
    s.push(c);
}

/// Convert a pixel buffer to text: one glyph per whole block, the blocks
/// walked in raster order, each row of glyphs closed by one space and a
/// newline.  A zero-sized block cannot tile the image: that is the one
/// error.
#[verifier::loop_isolation(false)]
pub fn render(image: &PixelBuffer, block_size: (u32, u32)) -> (r: Result<String, AsciiError>)
    requires
        image.wf(),
    ensures
        ({
            let (bw, bh) = block_size;
            &&& (r is Err <==> (bw == 0 || bh == 0))
            &&& (r matches Err(e) ==> e == AsciiError::ConversionError)
            &&& (r matches Ok(s) ==> s@ == rendered(*image, bw as nat, bh as nat))
        }),
{
    let (x_block, y_block) = block_size;
    if x_block == 0 || y_block == 0 {
        return Err(AsciiError::ConversionError);
    }
    let width: u32 = image.width();
    let height: u32 = image.height();
    let blocks_x: u32 = width / x_block;
    let blocks_y: u32 = height / y_block;
    let mut out_file_buf = String::new();

    let mut y: u32 = 0;
    while y < blocks_y
        invariant
            y <= blocks_y,
            out_file_buf@ == rendered_rows(*image, x_block as nat, y_block as nat, y as nat),
        decreases blocks_y - y,
    {
        let mut x: u32 = 0;
        while x < blocks_x
            invariant
                y < blocks_y,
                x <= blocks_x,
                out_file_buf@ == rendered_rows(*image, x_block as nat, y_block as nat, y as nat)
                    + row_text(*image, y as int, x_block as nat, y_block as nat, x as nat),
            decreases blocks_x - x,
        {
            proof {
                lemma_block_fits(width as int, x_block as int, x as int);
                lemma_block_fits(height as int, y_block as int, y as int);
            }
            // Grid blocks always start inside the image, so the inward
            // clamps below can never fire; they stay as a defensive guard.
            let x_start: u32 = if x * x_block < width {
                x * x_block
            } else {
                width - x_block - 1
            };
            let y_start: u32 = if y * y_block < height {
                y * y_block
            } else {
                height - y_block - 1
            };

            let mut sum: u128 = 0;
            let mut j: u32 = 0;
            while j < y_block
                invariant
                    j <= y_block,
                    x_start as int + x_block as int <= width as int,
                    y_start as int + y_block as int <= height as int,
                    sum as int == block_sum(
                        *image,
                        x_start as int,
                        y_start as int,
                        x_block as nat,
                        j as nat,
                    ),
                    sum as int <= 255 * (x_block as int * j as int),
                decreases y_block - j,
            {
                let mut i: u32 = 0;
                while i < x_block
                    invariant
                        i <= x_block,
                        j < y_block,
                        x_start as int + x_block as int <= width as int,
                        y_start as int + y_block as int <= height as int,
                        sum as int == block_sum(
                            *image,
                            x_start as int,
                            y_start as int,
                            x_block as nat,
                            j as nat,
                        ) + row_sum(*image, x_start as int, y_start as int + j, i as nat),
                        sum as int <= 255 * (x_block as int * j as int) + 255 * (i as int),
                    decreases x_block - i,
                {
                    proof {
                        lemma_mul_upper_bound(
                            x_block as int,
                            u32::MAX as int,
                            j as int,
                            u32::MAX as int,
                        );
                    }
                    let p = image.pixel_at(x_start + i, y_start + j);
                    let intensity: u8 = pixel_intensity(p);
                    sum = sum + (intensity as u128);
                    i = i + 1;
                }
                proof {
                    lemma_mul_is_distributive_add(x_block as int, j as int, 1);
                }
                j = j + 1;
            }

            proof {
                lemma_mul_upper_bound(
                    x_block as int,
                    u32::MAX as int,
                    y_block as int,
                    u32::MAX as int,
                );
            }
            let count: u64 = (x_block as u64) * (y_block as u64);
            proof {
                lemma_mul_strictly_positive(x_block as int, y_block as int);
                lemma_block_sum_bounds(
                    *image,
                    x_start as int,
                    y_start as int,
                    x_block as nat,
                    y_block as nat,
                );
                lemma_rounded_average_bounds(sum as int, count as int);
            }
            let numer: u128 = 2 * sum + (count as u128);
            let denom: u128 = 2 * (count as u128);
            let brightness: u8 = (numer / denom) as u8;
            proof {
                assert(brightness as int == block_brightness(
                    *image,
                    x as int,
                    y as int,
                    x_block as nat,
                    y_block as nat,
                ));
            }
            let c: char = match brigtness_to_ascii(brightness) {
                Ok(ch) => ch,
                Err(e) => {
                    return Err(e);
                },
            };
            push_char(&mut out_file_buf, c);
            proof {
                assert(out_file_buf@ =~= rendered_rows(
                    *image,
                    x_block as nat,
                    y_block as nat,
                    y as nat,
                ) + row_text(
                    *image,
                    y as int,
                    x_block as nat,
                    y_block as nat,
                    (x + 1) as nat,
                ));
            }
            x = x + 1;
        }
        out_file_buf.append(" \n");
        proof {
            reveal_strlit(" \n");
            assert(" \n"@ =~= row_end());
            assert(out_file_buf@ =~= rendered_rows(
                *image,
                x_block as nat,
                y_block as nat,
                (y + 1) as nat,
            ));
        }
        y = y + 1;
    }
    Ok(out_file_buf)
}

/// Converts one decoded image to its ASCII representation.
pub struct AsciiConverter {
    image_data: PixelBuffer,
    string_rep: Option<String>,
    block_size: (u32, u32),
}

impl AsciiConverter {
    /// The image being converted.
    pub closed spec fn spec_image(self) -> PixelBuffer {
        self.image_data
    }

    /// The block geometry in use.
    pub closed spec fn spec_block_size(self) -> (u32, u32) {
        self.block_size
    }

    /// The cached text, if a conversion has already been stored.
    pub closed spec fn spec_cached(self) -> Option<Seq<char>> {
        match self.string_rep {
            Some(s) => Some(s@),
            None => None,
        }
    }

    /// A converter is well-formed when its image is, its blocks have a
    /// positive area, and any cached text is the rendering itself.
    pub open spec fn wf(self) -> bool {
        &&& self.spec_image().wf()
        &&& self.spec_block_size().0 >= 1
        &&& self.spec_block_size().1 >= 1
        &&& (self.spec_cached() matches Some(t) ==> t == rendered(
            self.spec_image(),
            self.spec_block_size().0 as nat,
            self.spec_block_size().1 as nat,
        ))
    }

    /// Create a converter for a decoded image; the block geometry is
    /// derived from the scale factor.
    pub fn new(image_data: PixelBuffer, scale_factor: ScaleFactor) -> (c: AsciiConverter)
        requires
            image_data.wf(),
            scale_factor.wf(),
        ensures
            c.wf(),
            c.spec_image() == image_data,
            c.spec_block_size().0 as int == spec_block_width(scale_factor),
            c.spec_block_size().1 as int == spec_block_height(scale_factor),
    {
        AsciiConverter {
            image_data,
            string_rep: None,
            block_size: calculate_block_sizes(scale_factor),
        }
    }

    /// Create a converter with the block geometry given directly.
    pub fn with_block_size(image_data: PixelBuffer, block_size: (u32, u32)) -> (c: AsciiConverter)
        requires
            image_data.wf(),
            block_size.0 >= 1,
            block_size.1 >= 1,
        ensures
            c.wf(),
            c.spec_image() == image_data,
            c.spec_block_size() == block_size,
    {
        AsciiConverter { image_data, string_rep: None, block_size }
    }

    /// Convert the image.
    pub fn convert(self) -> (r: Result<String, AsciiError>)
        requires
            self.wf(),
        ensures
            r matches Ok(s) && s@ == rendered(
                self.spec_image(),
                self.spec_block_size().0 as nat,
                self.spec_block_size().1 as nat,
            ),
    {
        self.process_image()
    }

    /// Output the pre-converted string.  Will do the full conversion if
    /// the string has not yet been made.
    pub fn get_string(self) -> (r: Result<String, AsciiError>)
        requires
            self.wf(),
        ensures
            r matches Ok(s) && s@ == rendered(
                self.spec_image(),
                self.spec_block_size().0 as nat,
                self.spec_block_size().1 as nat,
            ),
    {
        match self.string_rep {
            Some(string_rep) => Ok(string_rep),
            None => self.process_image(),
        }
    }

    /// Convert the image data to an ASCII representation, remembering the
    /// result before handing it back.
    fn process_image(self) -> (r: Result<String, AsciiError>)
        requires
            self.wf(),
        ensures
            r matches Ok(s) && s@ == rendered(
                self.spec_image(),
                self.spec_block_size().0 as nat,
                self.spec_block_size().1 as nat,
            ),
    {
        let mut converter = self;
        let out_file_buf = match render(&converter.image_data, converter.block_size) {
            Ok(s) => s,
            Err(e) => {
                return Err(e);
            },
        };
        converter.string_rep = Some(out_file_buf.clone());
        Ok(out_file_buf)
    }
}

proof fn lemma_uniform_row_sum(img: PixelBuffer, x0: int, y: int, n: nat, v: int)
    requires
        forall|x: int| x0 <= x < x0 + n ==> spec_pixel_intensity(#[trigger] img.pix(x, y)) == v,
    ensures
        row_sum(img, x0, y, n) == n as int * v,
    decreases n,
{
    if n > 0 {
        lemma_uniform_row_sum(img, x0, y, (n - 1) as nat, v);
        lemma_mul_is_distributive_add_other_way(v, n as int - 1, 1);
        assert(row_sum(img, x0, y, n) == (n as int - 1) * v + v);
        assert((n as int - 1) * v + 1 * v == ((n as int - 1) + 1) * v);
    } else {
        lemma_mul_by_zero_is_zero(v);
    }
}

proof fn lemma_uniform_block_sum(img: PixelBuffer, x0: int, y0: int, bw: nat, m: nat, v: int)
    requires
        forall|x: int, y: int|
            x0 <= x < x0 + bw && y0 <= y < y0 + m ==> spec_pixel_intensity(
                #[trigger] img.pix(x, y),
            ) == v,
    ensures
        block_sum(img, x0, y0, bw, m) == (bw as int * m as int) * v,
    decreases m,
{
    if m > 0 {
        lemma_uniform_block_sum(img, x0, y0, bw, (m - 1) as nat, v);
        lemma_uniform_row_sum(img, x0, y0 + m - 1, bw, v);
        assert(block_sum(img, x0, y0, bw, m) == (bw as int * (m as int - 1)) * v + bw as int
            * v);
        assert((bw as int * (m as int - 1)) * v + bw as int * v == (bw as int * m as int) * v)
            by (nonlinear_arith);
        assert(block_sum(img, x0, y0, bw, m) == (bw as int * m as int) * v);
    } else {
        assert(block_sum(img, x0, y0, bw, m) == 0);
        assert((bw as int * m as int) * v == 0) by (nonlinear_arith)
            requires
                m == 0,
        ;
    }
}

/// Law: a block of uniform intensity has exactly that intensity as its
/// brightness: averaging and rounding change nothing, so together with
/// the monotone glyph mapping, a brighter uniform block is never drawn
/// with an earlier (darker) ramp glyph.
pub proof fn lemma_uniform_block_brightness(
    img: PixelBuffer,
    bx: int,
    by: int,
    bw: nat,
    bh: nat,
    v: int,
)
    requires
        bw >= 1,
        bh >= 1,
        forall|x: int, y: int|
            bx * bw <= x < bx * bw + bw && by * bh <= y < by * bh + bh ==> spec_pixel_intensity(
                #[trigger] img.pix(x, y),
            ) == v,
    ensures
        block_brightness(img, bx, by, bw, bh) == v,
{
    lemma_uniform_block_sum(img, bx * bw, by * bh, bw, bh, v);
    lemma_mul_strictly_positive(bw as int, bh as int);
    let c = (bw * bh) as int;
    let sum = block_sum(img, bx * bw, by * bh, bw, bh);
    assert(2 * sum + c == v * (2 * c) + c) by (nonlinear_arith)
        requires
            sum == c * v,
    ;
    lemma_fundamental_div_mod_converse_div(2 * sum + c, 2 * c, v, c);
}

/// Law: rendering is deterministic.  The text is a pure function of the
/// pixel data and the block geometry: any two renderings of the same
/// image with the same blocks are identical.
pub proof fn lemma_render_deterministic(
    img: PixelBuffer,
    bw: nat,
    bh: nat,
    out1: Seq<char>,
    out2: Seq<char>,
)
    requires
        out1 == rendered(img, bw, bh),
        out2 == rendered(img, bw, bh),
    ensures
        out1 == out2,
{
}

/// No ramp glyph is a newline: the row terminator alone breaks lines.
pub proof fn lemma_ramp_has_no_newline()
    ensures
        forall|i: int| 0 <= i < 70 ==> ramp()[i] != '\n',
{
    reveal_strlit("$@B%8&WM#*oahkbdpqwmZO0QLCJUYXzcvunxrjft/\\|()1{}[]?-_+~<>i!lI;:,\"^`'. ");
}

/// Each output row holds one glyph per whole block across the image.
pub proof fn lemma_row_text_len(img: PixelBuffer, by: int, bw: nat, bh: nat, n: nat)
    ensures
        row_text(img, by, bw, bh, n).len() == n,
    decreases n,
{
    if n > 0 {
        lemma_row_text_len(img, by, bw, bh, (n - 1) as nat);
    }
}

proof fn lemma_rendered_rows_shape(img: PixelBuffer, bw: nat, bh: nat, m: nat)
    ensures
        rendered_rows(img, bw, bh, m).len() == m * (blocks_across(img, bw) + 2),
        forall|i: int|
            0 <= i < m ==> #[trigger] rendered_rows(img, bw, bh, m).subrange(
                i * (blocks_across(img, bw) + 2) as int,
                (i + 1) * (blocks_across(img, bw) + 2) as int,
            ) == row_text(img, i, bw, bh, blocks_across(img, bw)) + row_end(),
    decreases m,
{
    let a = blocks_across(img, bw);
    let l = a as int + 2;
    if m > 0 {
        lemma_rendered_rows_shape(img, bw, bh, (m - 1) as nat);
        lemma_row_text_len(img, m as int - 1, bw, bh, a);
        lemma_mul_is_distributive_add_other_way(l, m as int - 1, 1);
        let prev = rendered_rows(img, bw, bh, (m - 1) as nat);
        let row = row_text(img, m as int - 1, bw, bh, a);
        let cur = rendered_rows(img, bw, bh, m);
        assert(cur == prev + row + row_end());
        assert(cur.len() == m * (a + 2));
        assert forall|i: int| 0 <= i < m implies #[trigger] rendered_rows(
            img,
            bw,
            bh,
            m,
        ).subrange(i * (a + 2) as int, (i + 1) * (a + 2) as int) == row_text(img, i, bw, bh, a)
            + row_end() by {
            lemma_mul_is_distributive_add_other_way(l, i, 1);
            if i < m - 1 {
                lemma_mul_inequality(i + 1, m as int - 1, l);
                assert(cur.subrange(i * l, (i + 1) * l) =~= prev.subrange(i * l, (i + 1) * l));
            } else {
                assert(cur.subrange(i * l, (i + 1) * l) =~= row + row_end());
            }
        }
    }
}

/// No glyph of an output row is a newline; every one is a ramp glyph.
pub proof fn lemma_row_text_no_newline(img: PixelBuffer, by: int, bw: nat, bh: nat, n: nat)
    requires
        bw >= 1,
        bh >= 1,
    ensures
        forall|j: int| 0 <= j < n ==> #[trigger] row_text(img, by, bw, bh, n)[j] != '\n',
    decreases n,
{
    lemma_ramp_has_no_newline();
    if n > 0 {
        lemma_row_text_no_newline(img, by, bw, bh, (n - 1) as nat);
        lemma_row_text_len(img, by, bw, bh, (n - 1) as nat);
        lemma_mul_strictly_positive(bw as int, bh as int);
        lemma_block_sum_bounds(img, (n - 1) * bw, by * bh, bw, bh);
        lemma_rounded_average_bounds(
            block_sum(img, (n - 1) * bw, by * bh, bw, bh),
            (bw * bh) as int,
        );
        lemma_ramp_index_in_range(block_brightness(img, n as int - 1, by, bw, bh));
        lemma_ramp_len();
    }
}

/// Law: a newline stands in the rendered text exactly at the last
/// position of each row, right after the terminator's space.
pub proof fn lemma_newline_positions(img: PixelBuffer, bw: nat, bh: nat)
    requires
        bw >= 1,
        bh >= 1,
    ensures
        forall|k: int|
            0 <= k < rendered(img, bw, bh).len() ==> (#[trigger] rendered(img, bw, bh)[k] == '\n'
                <==> k % (blocks_across(img, bw) + 2) as int == blocks_across(img, bw) + 1),
{
    let a = blocks_across(img, bw);
    let d = blocks_down(img, bh);
    let l = a as int + 2;
    let s = rendered(img, bw, bh);
    lemma_row_shape(img, bw, bh);
    assert forall|k: int| 0 <= k < s.len() implies (#[trigger] s[k] == '\n' <==> k % l == a + 1) by {
        lemma_fundamental_div_mod(k, l);
        lemma_mod_division_less_than_divisor(k, l);
        let i = k / l;
        let r = k % l;
        lemma_div_pos_is_pos(k, l);
        lemma_mul_is_commutative(d as int, l);
        lemma_multiply_divide_lt(k, l, d as int);
        assert(0 <= i < d);
        lemma_mul_nonnegative(i, l);
        lemma_mul_inequality(i + 1, d as int, l);
        let line = row_text(img, i, bw, bh, a) + row_end();
        assert(s.subrange(
            i * (blocks_across(img, bw) + 2) as int,
            (i + 1) * (blocks_across(img, bw) + 2) as int,
        ) == line);
        assert(s.subrange(i * l, (i + 1) * l) == line);
        lemma_mul_is_distributive_add_other_way(l, i, 1);
        lemma_mul_is_commutative(l, i);
        assert(k == i * l + r);
        assert(s[k] == s.subrange(i * l, (i + 1) * l)[r]);
        assert(s[k] == line[r]);
        lemma_row_text_no_newline(img, i, bw, bh, a);
        if r < a {
            assert(line[r] == row_text(img, i, bw, bh, a)[r]);
            assert(line[r] != '\n');
        } else if r == a {
            assert(line[r] == ' ');
        } else {
            assert(line[r] == '\n');
        }
    }
}

/// Law: the rendered text has exactly `height / blockHeight` rows, each
/// one `width / blockWidth` glyphs long plus the two terminator
/// characters, a space and a newline.  Row `i` stands at offset
/// `i * (width / blockWidth + 2)`.
pub proof fn lemma_row_shape(img: PixelBuffer, bw: nat, bh: nat)
    ensures
        rendered(img, bw, bh).len() == blocks_down(img, bh) * (blocks_across(img, bw) + 2),
        forall|i: int|
            0 <= i < blocks_down(img, bh) ==> #[trigger] rendered(img, bw, bh).subrange(
                i * (blocks_across(img, bw) + 2) as int,
                (i + 1) * (blocks_across(img, bw) + 2) as int,
            ) == row_text(img, i, bw, bh, blocks_across(img, bw)) + row_end(),
        forall|i: int|
            0 <= i < blocks_down(img, bh) ==> (#[trigger] row_text(
                img,
                i,
                bw,
                bh,
                blocks_across(img, bw),
            )).len() == blocks_across(img, bw),
{
    lemma_rendered_rows_shape(img, bw, bh, blocks_down(img, bh));
    assert forall|i: int| 0 <= i < blocks_down(img, bh) implies (#[trigger] row_text(
        img,
        i,
        bw,
        bh,
        blocks_across(img, bw),
    )).len() == blocks_across(img, bw) by {
        lemma_row_text_len(img, i, bw, bh, blocks_across(img, bw));
    }
}

} // verus!

