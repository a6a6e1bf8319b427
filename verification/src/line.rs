//! One line of pixels through the filter: the line is cut into segments, and
//! each segment is sorted where it stands.

use crate::order::stable_sorted;
use crate::pixel::{distance, Pixel, MAX_CHANNEL_SUM};
use crate::segment::{
    lemma_one_segment, lemma_runs_tile, lemma_unit_segments, segments, segments_of,
};
use crate::sorter::{
    lemma_sorted_runs, lemma_sorted_runs_when_descending, sort_segments, sorted_runs,
};
use crate::transpose::rows;
use vstd::prelude::*;

verus! {

/// A line after the filter: each of its segments sorted by descending
/// brightness, the segments where they were.
pub open spec fn sorted_line(line: Seq<Pixel>, level: int) -> Seq<Pixel> {
    sorted_runs(line, segments_of(line, level))
}

/// Every line of `lines` after the filter.
pub open spec fn sorted_lines(lines: Seq<Seq<Pixel>>, level: int) -> Seq<Seq<Pixel>> {
    Seq::new(lines.len(), |c: int| sorted_line(lines[c], level))
}

/// Cuts `line` into segments under the threshold `level` and sorts each. The
/// cuts are those of the line as it comes in: sorting moves none of them.
pub fn sort_line(line: &mut Vec<Pixel>, level: u16)
    ensures
        final(line)@ == sorted_line(old(line)@, level as int),
{
    let sections = segments(line, level);
    sort_segments(line, &sections);
}

/// Filters every line of `lines`, each on its own.
pub fn sort_lines(lines: &mut Vec<Vec<Pixel>>, level: u16)
    ensures
        rows(*final(lines)) == sorted_lines(rows(*old(lines)), level as int),
{
    let count = lines.len();
    let mut c: usize = 0;
    while c < count
        invariant
            count == lines@.len(),
            lines@.len() == old(lines)@.len(),
            c <= count,
            forall|k: int|
                0 <= k < c ==> (#[trigger] lines@[k])@ == sorted_line(
                    old(lines)@[k]@,
                    level as int,
                ),
            forall|k: int| c <= k < count ==> (#[trigger] lines@[k]) == old(lines)@[k],
        decreases count - c,
    {
        sort_line(&mut lines[c], level);
        c += 1;
    }
    assert(rows(*lines) =~= sorted_lines(rows(*old(lines)), level as int));
}

/// The filter keeps the pixels of a line: as many as before, and the same ones.
pub proof fn lemma_sorted_line_permutes(line: Seq<Pixel>, level: int)
    ensures
        sorted_line(line, level).len() == line.len(),
        sorted_line(line, level).to_multiset() == line.to_multiset(),
{
    lemma_runs_tile(line, level, 0);
    lemma_sorted_runs(line, segments_of(line, level), 0, line.len() as int);
    assert(line.subrange(0, line.len() as int) =~= line);
}

/// Where every pixel of a line is further than `level` from the one before
/// it, every pixel is a segment of its own and the filter leaves the line as
/// it is. At threshold 0 this is every line in which no two neighbours are
/// equal.
pub proof fn lemma_distinct_neighbours_stay(line: Seq<Pixel>, level: int)
    requires
        forall|i: int| 0 < i < line.len() ==> distance(line[i - 1], #[trigger] line[i]) > level,
    ensures
        segments_of(line, level) == Seq::new(line.len(), |i: int| (i, i + 1)),
        sorted_line(line, level) == line,
{
    let segs = segments_of(line, level);
    lemma_unit_segments(line, level);
    lemma_runs_tile(line, level, 0);
    lemma_sorted_runs_when_descending(line, segs, 0, line.len() as int);
    assert(line.subrange(0, line.len() as int) =~= line);
}

/// Under the highest threshold, and under any that no distance exceeds, a
/// line is one segment and comes out sorted as a whole: by descending
/// brightness, equally bright pixels in the order they had.
pub proof fn lemma_extreme_threshold(line: Seq<Pixel>, level: int)
    requires
        level >= MAX_CHANNEL_SUM,
    ensures
        line.len() > 0 ==> segments_of(line, level) == seq![(0int, line.len() as int)],
        sorted_line(line, level) == stable_sorted(line),
{
    let segs = segments_of(line, level);
    lemma_one_segment(line, level);
    if line.len() > 0 {
        assert(segs.drop_last() =~= Seq::<(int, int)>::empty());
        assert(sorted_runs(line, segs.drop_last()) =~= Seq::<Pixel>::empty());
        assert(line.subrange(0, line.len() as int) =~= line);
    }
    assert(sorted_line(line, level) =~= stable_sorted(line));
}

} // verus!
