//! An image as a flat buffer of RGBA bytes, row after row, and as a grid of
//! pixels.

use crate::pixel::Pixel;
use crate::transpose::rows;
use vstd::prelude::*;

verus! {

/// The buffer holds exactly `width * height` pixels of four bytes.
pub open spec fn fits(image: Seq<u8>, width: int, height: int) -> bool {
    image.len() == width * height * 4
}

/// Pixel number `p` of a buffer of RGBA bytes.
pub open spec fn pixel_at(image: Seq<u8>, p: int) -> Pixel {
    Pixel { r: image[4 * p], g: image[4 * p + 1], b: image[4 * p + 2], a: image[4 * p + 3] }
}

/// Byte `c` of a pixel in the buffer: red, green, blue, alpha.
pub open spec fn channel(p: Pixel, c: int) -> u8 {
    if c == 0 {
        p.r
    } else if c == 1 {
        p.g
    } else if c == 2 {
        p.b
    } else {
        p.a
    }
}

/// Column `c` of the image, from the top row down.
pub open spec fn column(image: Seq<u8>, width: int, height: int, c: int) -> Seq<Pixel> {
    Seq::new(height as nat, |r: int| pixel_at(image, r * width + c))
}

/// The image as rows of pixels.
pub open spec fn image_rows(image: Seq<u8>, width: int, height: int) -> Seq<Seq<Pixel>> {
    Seq::new(
        height as nat,
        |r: int| Seq::new(width as nat, |c: int| pixel_at(image, r * width + c)),
    )
}

/// The bytes of a grid of pixels whose rows have `width` cells, row after row.
pub open spec fn grid_bytes(grid: Seq<Seq<Pixel>>, width: int) -> Seq<u8> {
    Seq::new(
        (4 * (grid.len() * width)) as nat,
        |i: int|
            {
                let p = i / 4;
                channel(grid[p / width][p % width], i % 4)
            },
    )
}

/// The cell in row `r` and column `c` is pixel number `r * width + c`, and
/// that number gives the row and the column back.
pub proof fn lemma_cell_index(r: int, c: int, width: int, height: int)
    requires
        0 <= r < height,
        0 <= c < width,
    ensures
        0 <= r * width + c < height * width,
        (r + 1) * width == r * width + width,
        (r * width + c) / width == r,
        (r * width + c) % width == c,
{
    assert(0 <= r * width && (r + 1) * width <= height * width && (r + 1) * width == r * width
        + width) by (nonlinear_arith)
        requires
            0 <= r < height,
            0 < width,
    ;
    vstd::arithmetic::div_mod::lemma_fundamental_div_mod_converse(r * width + c, width, r, c);
}

/// Whether the buffer holds `width * height` pixels. Sides whose product is
/// beyond `usize` fit no buffer.
pub(crate) fn has_dimensions(image: &Vec<u8>, width: usize, height: usize) -> (ok: bool)
    ensures
        ok == fits(image@, width as int, height as int),
{
    let len = image.len();
    match width.checked_mul(height) {
        Some(area) => match area.checked_mul(4) {
            Some(size) => len == size,
            None => false,
        },
        None => false,
    }
}

/// Reads the buffer as `height` rows of `width` pixels.
pub(crate) fn decode(image: &Vec<u8>, width: usize, height: usize) -> (grid: Vec<Vec<Pixel>>)
    requires
        fits(image@, width as int, height as int),
    ensures
        rows(grid) == image_rows(image@, width as int, height as int),
{
    let mut grid: Vec<Vec<Pixel>> = Vec::with_capacity(height);
    let size = image.len();
    let mut r: usize = 0;
    let mut p: usize = 0;
    assert(0 * width == 0) by (nonlinear_arith);
    while r < height
        invariant
            fits(image@, width as int, height as int),
            size == image@.len(),
            r <= height,
            p == r * width,
            grid@.len() == r,
            forall|k: int|
                0 <= k < r ==> (#[trigger] grid@[k])@ == image_rows(
                    image@,
                    width as int,
                    height as int,
                )[k],
        decreases height - r,
    {
        let mut row: Vec<Pixel> = Vec::with_capacity(width);
        let mut c: usize = 0;
        while c < width
            invariant
                fits(image@, width as int, height as int),
                size == image@.len(),
                r < height,
                c <= width,
                p == r * width + c,
                row@.len() == c,
                forall|k: int| 0 <= k < c ==> (#[trigger] row@[k]) == pixel_at(image@, r * width + k),
            decreases width - c,
        {
            proof {
                lemma_cell_index(r as int, c as int, width as int, height as int);
                assert(height * width * 4 == width * height * 4) by (nonlinear_arith);
            }
            let at = 4 * p;
            row.push(Pixel { r: image[at], g: image[at + 1], b: image[at + 2], a: image[at + 3] });
            c += 1;
            p += 1;
        }
        proof {
            lemma_next_row(r as int, width as int);
            assert(row@ =~= image_rows(image@, width as int, height as int)[r as int]);
        }
        grid.push(row);
        r += 1;
    }
    assert(rows(grid) =~= image_rows(image@, width as int, height as int));
    grid
}

/// Writes a grid whose rows have `width` pixels as bytes, row after row.
pub(crate) fn encode(grid: &Vec<Vec<Pixel>>, width: usize) -> (bytes: Vec<u8>)
    requires
        forall|r: int| 0 <= r < grid@.len() ==> (#[trigger] grid@[r])@.len() == width,
        4 * (grid@.len() * width) <= usize::MAX,
    ensures
        bytes@ == grid_bytes(rows(*grid), width as int),
{
    let height = grid.len();
    let mut bytes: Vec<u8> = Vec::new();
    let mut r: usize = 0;
    let ghost mut p: int = 0;
    assert(0 * width == 0) by (nonlinear_arith);
    while r < height
        invariant
            height == grid@.len(),
            forall|k: int| 0 <= k < grid@.len() ==> (#[trigger] grid@[k])@.len() == width,
            r <= height,
            p == r * width,
            bytes@.len() == 4 * p,
            forall|i: int|
                0 <= i < bytes@.len() ==> (#[trigger] bytes@[i]) == grid_bytes(
                    rows(*grid),
                    width as int,
                )[i],
        decreases height - r,
    {
        let row = &grid[r];
        let mut c: usize = 0;
        while c < width
            invariant
                height == grid@.len(),
                r < height,
                row@ == grid@[r as int]@,
                row@.len() == width,
                c <= width,
                p == r * width + c,
                bytes@.len() == 4 * p,
                forall|i: int|
                    0 <= i < bytes@.len() ==> (#[trigger] bytes@[i]) == grid_bytes(
                        rows(*grid),
                        width as int,
                    )[i],
            decreases width - c,
        {
            let pixel = row[c];
            proof {
                lemma_cell_index(r as int, c as int, width as int, height as int);
                assert(rows(*grid)[r as int][c as int] == pixel);
            }
            bytes.push(pixel.r);
            bytes.push(pixel.g);
            bytes.push(pixel.b);
            bytes.push(pixel.a);
            proof {
                p = p + 1;
            }
            c += 1;
        }
        proof {
            lemma_next_row(r as int, width as int);
        }
        r += 1;
    }
    assert(bytes@ =~= grid_bytes(rows(*grid), width as int));
    bytes
}

proof fn lemma_next_row(r: int, width: int)
    ensures
        (r + 1) * width == r * width + width,
{
    assert((r + 1) * width == r * width + width) by (nonlinear_arith);
}

} // verus!
