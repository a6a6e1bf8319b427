//! Matrix transpose, done block by block so that both the source and the
//! destination are walked in cache-sized tiles.

use vstd::prelude::*;

verus! {

/// The side of a tile.
pub const BLOCK_SIZE: usize = 16;

/// The rows of a matrix that is held as a vector of vectors.
pub open spec fn rows<T>(m: Vec<Vec<T>>) -> Seq<Seq<T>> {
    Seq::new(m@.len(), |i: int| m@[i]@)
}

/// Every row of `m` has `width` cells.
pub open spec fn is_rectangular<T>(m: Seq<Seq<T>>, width: nat) -> bool {
    forall|i: int| 0 <= i < m.len() ==> (#[trigger] m[i]).len() == width
}

/// The transpose of `m`: cell `(j, i)` of the result is cell `(i, j)` of `m`.
///
/// The first row gives the width. A matrix without rows, or whose first row is
/// empty, has the empty transpose. Where a later row is shorter than the first,
/// the cells it lacks are taken from the top left corner of `m`; what a row
/// holds beyond the width is left out.
pub open spec fn transposed<T>(m: Seq<Seq<T>>) -> Seq<Seq<T>> {
    if m.len() == 0 || m[0].len() == 0 {
        Seq::empty()
    } else {
        Seq::new(m[0].len(), |j: int| Seq::new(m.len(), |i: int| cell_or_corner(m, i, j)))
    }
}

/// Cell `(i, j)` of `m` where row `i` reaches column `j`, else the top left corner.
pub open spec fn cell_or_corner<T>(m: Seq<Seq<T>>, i: int, j: int) -> T {
    if j < m[i].len() {
        m[i][j]
    } else {
        m[0][0]
    }
}

/// What the destination holds at `(j, i)` while the tiles are being copied:
/// the source cell once it is `copied`, the filler before that.
spec fn in_progress<T>(m: Seq<Seq<T>>, copied: bool, i: int, j: int) -> T {
    if copied {
        cell_or_corner(m, i, j)
    } else {
        m[0][0]
    }
}

/// The end of the tile that starts at `start`, cut off at `limit`.
fn tile_end(start: usize, limit: usize) -> (end: usize)
    requires
        start < limit,
    ensures
        start < end <= limit,
        end == if limit - start < BLOCK_SIZE { limit as int } else { start + BLOCK_SIZE },
{
    if limit - start < BLOCK_SIZE {
        limit
    } else {
        start + BLOCK_SIZE
    }
}

/// A `width` by `height` matrix with `filler` in every cell.
fn filled<T: Copy>(width: usize, height: usize, filler: T) -> (m: Vec<Vec<T>>)
    ensures
        m@.len() == width,
        forall|j: int| 0 <= j < width ==> (#[trigger] m@[j])@.len() == height,
        forall|j: int, i: int| 0 <= j < width && 0 <= i < height ==> (#[trigger] m@[j]@[i]) == filler,
{
    let mut m: Vec<Vec<T>> = Vec::with_capacity(width);
    let mut j: usize = 0;
    while j < width
        invariant
            j <= width,
            m@.len() == j,
            forall|k: int| 0 <= k < j ==> (#[trigger] m@[k])@.len() == height,
            forall|k: int, i: int| 0 <= k < j && 0 <= i < height ==> (#[trigger] m@[k]@[i]) == filler,
        decreases width - j,
    {
        let mut column: Vec<T> = Vec::with_capacity(height);
        let mut i: usize = 0;
        while i < height
            invariant
                i <= height,
                column@.len() == i,
                forall|k: int| 0 <= k < i ==> (#[trigger] column@[k]) == filler,
            decreases height - i,
        {
            column.push(filler);
            i += 1;
        }
        m.push(column);
        j += 1;
    }
    m
}

/// Transposes `matrix`.
///
/// The copy goes tile by tile: all cells of one `BLOCK_SIZE` square are moved
/// before the next square is touched.
pub fn transpose<T: Copy>(matrix: Vec<Vec<T>>) -> (result: Vec<Vec<T>>)
    ensures
        rows(result) == transposed(rows(matrix)),
{
    if matrix.len() == 0 || matrix[0].len() == 0 {
        let result: Vec<Vec<T>> = Vec::new();
        assert(rows(result) =~= transposed(rows(matrix)));
        return result;
    }
    let height = matrix.len();
    let width = matrix[0].len();
    let ghost m = rows(matrix);
    let mut result = filled(width, height, matrix[0][0]);

    let mut i0: usize = 0;
    while i0 < height
        invariant
            m == rows(matrix),
            height == matrix@.len(),
            width == m[0].len(),
            height > 0,
            width > 0,
            i0 <= height,
            result@.len() == width,
            forall|j: int| 0 <= j < width ==> (#[trigger] result@[j])@.len() == height,
            forall|j: int, i: int|
                0 <= j < width && 0 <= i < height ==> (#[trigger] result@[j]@[i]) == in_progress(
                    m,
                    i < i0,
                    i,
                    j,
                ),
        decreases height - i0,
    {
        let i1 = tile_end(i0, height);
        let mut j0: usize = 0;
        while j0 < width
            invariant
                m == rows(matrix),
                height == matrix@.len(),
                width == m[0].len(),
                i0 < i1 <= height,
                j0 <= width,
                result@.len() == width,
                forall|j: int| 0 <= j < width ==> (#[trigger] result@[j])@.len() == height,
                forall|j: int, i: int|
                    0 <= j < width && 0 <= i < height ==> (#[trigger] result@[j]@[i])
                        == in_progress(m, i < i0 || (i < i1 && j < j0), i, j),
            decreases width - j0,
        {
            let j1 = tile_end(j0, width);
            let mut i: usize = i0;
            while i < i1
                invariant
                    m == rows(matrix),
                    height == matrix@.len(),
                    width == m[0].len(),
                    i0 <= i <= i1 <= height,
                    j0 < j1 <= width,
                    result@.len() == width,
                    forall|j: int| 0 <= j < width ==> (#[trigger] result@[j])@.len() == height,
                    forall|j: int, k: int|
                        0 <= j < width && 0 <= k < height ==> (#[trigger] result@[j]@[k])
                            == in_progress(
                            m,
                            k < i0 || (k < i1 && j < j0) || (k < i && j < j1),
                            k,
                            j,
                        ),
                decreases i1 - i,
            {
                let row_len = matrix[i].len();
                let stop = if row_len < j1 {
                    row_len
                } else {
                    j1
                };
                let mut j: usize = j0;
                while j < stop
                    invariant
                        m == rows(matrix),
                        height == matrix@.len(),
                        width == m[0].len(),
                        i0 <= i < i1 <= height,
                        j0 <= j <= j1,
                        j0 < j1 <= width,
                        stop <= j1,
                        stop <= m[i as int].len(),
                        stop == j1 || stop == m[i as int].len(),
                        result@.len() == width,
                        forall|c: int| 0 <= c < width ==> (#[trigger] result@[c])@.len() == height,
                        forall|c: int, k: int|
                            0 <= c < width && 0 <= k < height ==> (#[trigger] result@[c]@[k])
                                == in_progress(
                                m,
                                k < i0 || (k < i1 && c < j0) || (k < i && c < j1) || (k == i && c
                                    < j),
                                k,
                                c,
                            ),
                    decreases stop - j,
                {
                    result[j][i] = matrix[i][j];
                    j += 1;
                }
                i += 1;
            }
            j0 = j1;
        }
        i0 = i1;
    }
    assert(rows(result) =~~= transposed(m));
    result
}

/// The transpose of a matrix with `width` cells in each of its rows, where it
/// has rows and cells at all, has `width` rows as long as `m` is high, and
/// holds at `(j, i)` what `m` holds at `(i, j)`.
pub proof fn lemma_transposed_cells<T>(m: Seq<Seq<T>>, width: nat)
    requires
        is_rectangular(m, width),
        m.len() > 0,
        width > 0,
    ensures
        transposed(m).len() == width,
        is_rectangular(transposed(m), m.len()),
        forall|i: int, j: int|
            0 <= i < m.len() && 0 <= j < width ==> #[trigger] transposed(m)[j][i] == m[i][j],
{
    assert(m[0].len() == width);
    assert forall|i: int, j: int| 0 <= i < m.len() && 0 <= j < width implies #[trigger] transposed(
        m,
    )[j][i] == m[i][j] by {
        assert(m[i].len() == width);
    }
}

/// Transposing such a matrix twice gives the matrix back.
pub proof fn lemma_transposed_twice<T>(m: Seq<Seq<T>>, width: nat)
    requires
        is_rectangular(m, width),
        m.len() > 0,
        width > 0,
    ensures
        transposed(transposed(m)) == m,
{
    let t = transposed(m);
    lemma_transposed_cells(m, width);
    lemma_transposed_cells(t, m.len());
    assert forall|i: int| 0 <= i < m.len() implies #[trigger] transposed(t)[i] == m[i] by {
        assert(m[i].len() == width);
        assert forall|j: int| 0 <= j < width implies transposed(t)[i][j] == m[i][j] by {
            assert(transposed(t)[i][j] == t[j][i]);
        }
        assert(transposed(t)[i] =~= m[i]);
    }
    assert(transposed(t) =~= m);
}

} // verus!
