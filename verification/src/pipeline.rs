//! The filter as a whole: the columns of an RGBA image are taken one by one,
//! cut into segments and sorted, and the image is put together again.

use crate::line::{lemma_sorted_line_permutes, sort_lines, sorted_line, sorted_lines};
use crate::raster::{channel, column, fits, grid_bytes, image_rows, lemma_cell_index};
use crate::raster::{decode, encode, has_dimensions};
use crate::transpose::{is_rectangular, rows, transpose, transposed};
use vstd::prelude::*;

verus! {

/// Why an image was refused.
#[derive(Clone, Copy, Debug, PartialEq, Eq, Structural)]
pub enum SortError {
    /// The buffer does not hold `width * height` pixels of four bytes.
    InvalidDimensions,
}

/// The image with every column filtered: the pixel in row `r` and column `c`
/// is pixel `r` of column `c` after sorting.
pub open spec fn sorted_image(image: Seq<u8>, width: int, height: int, level: int) -> Seq<u8> {
    Seq::new(
        image.len(),
        |i: int|
            {
                let p = i / 4;
                channel(
                    sorted_line(column(image, width, height, p % width), level)[p / width],
                    i % 4,
                )
            },
    )
}

/// Sorts the pixels of every column of an RGBA image.
///
/// `image` holds `height` rows of `width` pixels, four bytes to a pixel in the
/// order red, green, blue, alpha. Every column is cut into segments, a new one
/// starting wherever a pixel is further than `level` from the one above it,
/// and each segment is ordered by descending brightness, equally bright pixels
/// staying in their order. A buffer of any other length is refused.
pub fn sort(image: Vec<u8>, width: usize, height: usize, level: u16) -> (result: Result<
    Vec<u8>,
    SortError,
>)
    ensures
        fits(image@, width as int, height as int) ==> result is Ok && result->Ok_0@
            == sorted_image(image@, width as int, height as int, level as int),
        !fits(image@, width as int, height as int) ==> result is Err && result->Err_0
            == SortError::InvalidDimensions,
        result is Ok ==> result->Ok_0@.len() == image@.len(),
{
    if !has_dimensions(&image, width, height) {
        return Err(SortError::InvalidDimensions);
    }
    let grid = decode(&image, width, height);
    let mut lines = transpose(grid);
    sort_lines(&mut lines, level);
    let sorted = transpose(lines);
    proof {
        lemma_columns_and_back(image@, width as int, height as int, level as int);
        assert forall|r: int| 0 <= r < sorted@.len() implies (#[trigger] sorted@[r])@.len()
            == width by {
            assert(rows(sorted)[r] == sorted@[r]@);
        }
    }
    let bytes = encode(&sorted, width);
    Ok(bytes)
}

/// Taking the columns of an image, filtering each, and laying them out as rows
/// again gives the filtered image.
proof fn lemma_columns_and_back(image: Seq<u8>, width: int, height: int, level: int)
    requires
        0 <= width,
        0 <= height,
        fits(image, width, height),
    ensures
        grid_bytes(
            transposed(sorted_lines(transposed(image_rows(image, width, height)), level)),
            width,
        ) == sorted_image(image, width, height, level),
        is_rectangular(
            transposed(sorted_lines(transposed(image_rows(image, width, height)), level)),
            width as nat,
        ),
        4 * (transposed(
            sorted_lines(transposed(image_rows(image, width, height)), level),
        ).len() * width) == image.len(),
{
    let grid = image_rows(image, width, height);
    let lines = transposed(grid);
    let sorted = sorted_lines(lines, level);
    let back = transposed(sorted);
    if width == 0 || height == 0 {
        assert(width * height * 4 == 0) by (nonlinear_arith)
            requires
                width == 0 || height == 0,
        ;
        assert(lines.len() == 0);
        assert(back.len() == 0);
        assert(back.len() * width == 0) by (nonlinear_arith)
            requires
                back.len() == 0,
        ;
        assert(grid_bytes(back, width) =~= sorted_image(image, width, height, level));
    } else {
        assert(grid[0].len() == width);
        assert(lines.len() == width);
        assert forall|c: int| 0 <= c < width implies #[trigger] lines[c] == column(
            image,
            width,
            height,
            c,
        ) by {
            assert forall|r: int| 0 <= r < height implies lines[c][r] == column(
                image,
                width,
                height,
                c,
            )[r] by {
                assert(grid[r].len() == width);
            }
            assert(lines[c] =~= column(image, width, height, c));
        }
        assert forall|c: int| 0 <= c < width implies (#[trigger] sorted[c]).len() == height by {
            lemma_sorted_line_permutes(lines[c], level);
        }
        assert(sorted[0].len() == height);
        assert(back.len() == height);
        assert forall|r: int| 0 <= r < back.len() implies (#[trigger] back[r]).len() == width by {}
        assert(height * width * 4 == width * height * 4 && 4 * (height * width) == width * height
            * 4) by (nonlinear_arith);
        assert forall|i: int| 0 <= i < image.len() implies grid_bytes(back, width)[i]
            == sorted_image(image, width, height, level)[i] by {
            let p = i / 4;
            vstd::arithmetic::div_mod::lemma_multiply_divide_lt(p, width, height);
            vstd::arithmetic::div_mod::lemma_fundamental_div_mod(p, width);
            vstd::arithmetic::div_mod::lemma_div_pos_is_pos(p, width);
            vstd::arithmetic::div_mod::lemma_mod_bound(p, width);
            let r = p / width;
            let c = p % width;
            assert(0 <= r < height && 0 <= c < width);
            assert(sorted[c].len() == height);
            assert(back[r][c] == sorted[c][r]);
            assert(lines[c] == column(image, width, height, c));
        }
        assert(grid_bytes(back, width) =~= sorted_image(image, width, height, level));
    }
}

/// Every column of the filtered image is that column of the image after the
/// filter. So it holds the pixels the column had: none is made up, dropped or
/// moved to another column.
pub proof fn lemma_columns_sorted(image: Seq<u8>, width: int, height: int, level: int, c: int)
    requires
        0 <= height,
        0 <= c < width,
        fits(image, width, height),
    ensures
        column(sorted_image(image, width, height, level), width, height, c) == sorted_line(
            column(image, width, height, c),
            level,
        ),
        column(sorted_image(image, width, height, level), width, height, c).to_multiset()
            == column(image, width, height, c).to_multiset(),
{
    let out = sorted_image(image, width, height, level);
    let before = column(image, width, height, c);
    let after = column(out, width, height, c);
    lemma_sorted_line_permutes(before, level);
    assert(height * width * 4 == width * height * 4) by (nonlinear_arith);
    assert forall|r: int| 0 <= r < height implies after[r] == sorted_line(before, level)[r] by {
        lemma_cell_index(r, c, width, height);
        let p = r * width + c;
        assert((4 * p) / 4 == p && (4 * p + 1) / 4 == p && (4 * p + 2) / 4 == p && (4 * p + 3) / 4
            == p);
        assert(out[4 * p] == sorted_line(before, level)[r].r);
        assert(out[4 * p + 1] == sorted_line(before, level)[r].g);
        assert(out[4 * p + 2] == sorted_line(before, level)[r].b);
        assert(out[4 * p + 3] == sorted_line(before, level)[r].a);
    }
    assert(after =~= sorted_line(before, level));
}

} // verus!
