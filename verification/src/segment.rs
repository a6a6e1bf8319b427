//! Cutting a line of pixels into runs: a new run starts wherever a pixel is
//! further than the threshold from the pixel before it.

use crate::pixel::{distance, Pixel, MAX_CHANNEL_SUM};
use vstd::prelude::*;

verus! {

/// A run starts at `i`: the pixel there is further than `level` from its
/// predecessor. Index 0 starts the first run and is never a cut.
pub open spec fn is_cut(line: Seq<Pixel>, level: int, i: int) -> bool {
    0 < i < line.len() && distance(line[i - 1], line[i]) > level
}

/// Where the run that starts at `start` ends: at the first cut behind `start`,
/// or at the end of the line where there is none.
pub open spec fn run_end(line: Seq<Pixel>, level: int, start: int) -> int
    decreases line.len() - start,
{
    if start + 1 >= line.len() || is_cut(line, level, start + 1) {
        start + 1
    } else {
        run_end(line, level, start + 1)
    }
}

/// The runs of `line` from index `start` on, as half-open ranges in order.
pub open spec fn runs_from(line: Seq<Pixel>, level: int, start: int) -> Seq<(int, int)>
    decreases line.len() - start,
{
    if 0 <= start < line.len() {
        proof {
            lemma_run_end(line, level, start);
        }
        let end = run_end(line, level, start);
        seq![(start, end)] + runs_from(line, level, end)
    } else {
        Seq::empty()
    }
}

/// The segments of `line` under the threshold `level`.
pub open spec fn segments_of(line: Seq<Pixel>, level: int) -> Seq<(int, int)> {
    runs_from(line, level, 0)
}

/// The ranges lie end to end from `from` to `to`, and none of them is empty.
pub open spec fn tiles(segs: Seq<(int, int)>, from: int, to: int) -> bool {
    &&& from <= to
    &&& segs.len() == 0 ==> from == to
    &&& segs.len() > 0 ==> segs[0].0 == from && segs.last().1 == to
    &&& forall|k: int| 0 <= k < segs.len() ==> (#[trigger] segs[k]).0 < segs[k].1
    &&& forall|k: int, l: int|
        0 <= k && l == k + 1 && l < segs.len() ==> (#[trigger] segs[k]).1 == (#[trigger] segs[l]).0
}

/// Range `k` of `segs` holds the index `i`.
pub open spec fn holds(segs: Seq<(int, int)>, k: int, i: int) -> bool {
    0 <= k < segs.len() && segs[k].0 <= i < segs[k].1
}

/// Some range of `segs` holds the index `i`.
pub open spec fn covered(segs: Seq<(int, int)>, i: int) -> bool {
    exists|k: int| holds(segs, k, i)
}

/// The ranges as plain integers.
pub open spec fn as_ranges(v: Seq<(usize, usize)>) -> Seq<(int, int)> {
    Seq::new(v.len(), |k: int| (v[k].0 as int, v[k].1 as int))
}

/// A run is not empty, stays inside the line, has no cut inside, and stops at a
/// cut or at the end of the line.
pub proof fn lemma_run_end(line: Seq<Pixel>, level: int, start: int)
    requires
        0 <= start < line.len(),
    ensures
        start < run_end(line, level, start) <= line.len(),
        forall|j: int| start < j < run_end(line, level, start) ==> !is_cut(line, level, j),
        run_end(line, level, start) == line.len() || is_cut(
            line,
            level,
            run_end(line, level, start),
        ),
    decreases line.len() - start,
{
    if start + 1 >= line.len() || is_cut(line, level, start + 1) {
    } else {
        lemma_run_end(line, level, start + 1);
    }
}

/// The run that starts at `start` ends at `end` if there is no cut between
/// the two and `end` is a cut or the end of the line.
pub proof fn lemma_run_end_is(line: Seq<Pixel>, level: int, start: int, end: int)
    requires
        0 <= start < end <= line.len(),
        forall|j: int| start < j < end ==> !is_cut(line, level, j),
        end == line.len() || is_cut(line, level, end),
    ensures
        run_end(line, level, start) == end,
    decreases end - start,
{
    if start + 1 < end {
        lemma_run_end_is(line, level, start + 1, end);
    }
}

/// The segments of `line`: one range for every run, from the first pixel to
/// the last.
pub fn segments(line: &Vec<Pixel>, level: u16) -> (result: Vec<(usize, usize)>)
    ensures
        as_ranges(result@) == segments_of(line@, level as int),
        tiles(as_ranges(result@), 0, line@.len() as int),
{
    let mut sections: Vec<(usize, usize)> = Vec::new();
    let len = line.len();
    proof {
        lemma_runs_tile(line@, level as int, 0);
    }
    if len == 0 {
        assert(as_ranges(sections@) =~= segments_of(line@, level as int));
        return sections;
    }
    let threshold: i32 = level as i32;
    // The open run is `line[start..i]`: its last pixel is the one before `i`.
    let mut start: usize = 0;
    let mut i: usize = 1;
    assert(as_ranges(sections@) + runs_from(line@, level as int, 0) =~= segments_of(
        line@,
        level as int,
    ));
    while i < len
        invariant
            len == line@.len(),
            threshold == level,
            start < i <= len,
            forall|j: int| start < j < i ==> !is_cut(line@, level as int, j),
            as_ranges(sections@) + runs_from(line@, level as int, start as int) == segments_of(
                line@,
                level as int,
            ),
        decreases len - i,
    {
        if line[i - 1].distance(&line[i]) > threshold {
            proof {
                lemma_run_end_is(line@, level as int, start as int, i as int);
                assert(as_ranges(sections@.push((start, i))) + runs_from(
                    line@,
                    level as int,
                    i as int,
                ) =~= as_ranges(sections@) + runs_from(line@, level as int, start as int));
            }
            sections.push((start, i));
            start = i;
        }
        i += 1;
    }
    proof {
        lemma_run_end_is(line@, level as int, start as int, len as int);
        assert(runs_from(line@, level as int, len as int) =~= Seq::empty());
        assert(as_ranges(sections@.push((start, len))) =~= as_ranges(sections@) + runs_from(
            line@,
            level as int,
            start as int,
        ));
    }
    sections.push((start, len));
    sections
}

/// The runs from `start` on lie end to end from `start` to the end of the line.
pub proof fn lemma_runs_tile(line: Seq<Pixel>, level: int, start: int)
    requires
        0 <= start <= line.len(),
    ensures
        tiles(runs_from(line, level, start), start, line.len() as int),
    decreases line.len() - start,
{
    if start < line.len() {
        lemma_run_end(line, level, start);
        let end = run_end(line, level, start);
        let rest = runs_from(line, level, end);
        let all = runs_from(line, level, start);
        lemma_runs_tile(line, level, end);
        assert(all == seq![(start, end)] + rest);
        assert forall|k: int| 0 <= k < all.len() implies (#[trigger] all[k]).0 < all[k].1 by {
            if k > 0 {
                assert(all[k] == rest[k - 1]);
            }
        }
        assert forall|k: int, l: int| 0 <= k && l == k + 1 && l < all.len() implies (
        #[trigger] all[k]).1 == (#[trigger] all[l]).0 by {
            assert(all[l] == rest[l - 1]);
            if k > 0 {
                assert(all[k] == rest[k - 1]);
            }
        }
        if rest.len() > 0 {
            assert(all.last() == rest.last());
        }
    }
}

/// In ranges that lie end to end, an earlier one ends before a later one starts.
pub proof fn lemma_tiles_ordered(segs: Seq<(int, int)>, from: int, to: int, k: int, l: int)
    requires
        tiles(segs, from, to),
        0 <= k < l < segs.len(),
    ensures
        segs[k].1 <= segs[l].0,
    decreases l - k,
{
    if k + 1 < l {
        lemma_tiles_ordered(segs, from, to, k, l - 1);
        assert(segs[l - 1].0 < segs[l - 1].1);
        assert(segs[l - 1].1 == segs[l].0);
    } else {
        assert(segs[k].1 == segs[l].0);
    }
}

/// Ranges that lie end to end from `from` to `to` hold every index between
/// the two, each in one range only.
pub proof fn lemma_tiles_cover(segs: Seq<(int, int)>, from: int, to: int, i: int) -> (k: int)
    requires
        tiles(segs, from, to),
        from <= i < to,
    ensures
        holds(segs, k, i),
        forall|l: int| holds(segs, l, i) ==> l == k,
    decreases segs.len(),
{
    let n = segs.len() as int;
    let k = if segs[n - 1].0 <= i {
        n - 1
    } else {
        let front = segs.drop_last();
        assert(n >= 2);
        assert(segs[n - 2].1 == segs[n - 1].0);
        assert(tiles(front, from, segs[n - 1].0)) by {
            assert forall|a: int| 0 <= a < front.len() implies (#[trigger] front[a]).0
                < front[a].1 by {
                assert(front[a] == segs[a]);
            }
            assert forall|a: int, b: int| 0 <= a && b == a + 1 && b < front.len() implies (
            #[trigger] front[a]).1 == (#[trigger] front[b]).0 by {
                assert(front[a] == segs[a] && front[b] == segs[b]);
            }
            assert(segs[0].0 < segs[0].1);
        }
        let found = lemma_tiles_cover(front, from, segs[n - 1].0, i);
        assert(front[found] == segs[found]);
        found
    };
    assert forall|l: int| holds(segs, l, i) implies l == k by {
        if l < k {
            lemma_tiles_ordered(segs, from, to, l, k);
        }
        if k < l {
            lemma_tiles_ordered(segs, from, to, k, l);
        }
    }
    k
}

/// The segments of a line are a partition of it: they follow one another
/// without gap or overlap from the first index to the last, none is empty, and
/// every index lies in exactly one of them.
pub proof fn lemma_segments_partition(line: Seq<Pixel>, level: int)
    ensures
        tiles(segments_of(line, level), 0, line.len() as int),
        forall|i: int| 0 <= i < line.len() ==> #[trigger] covered(segments_of(line, level), i),
        forall|i: int, k: int, l: int|
            holds(segments_of(line, level), k, i) && holds(segments_of(line, level), l, i) ==> k
                == l,
{
    let segs = segments_of(line, level);
    lemma_runs_tile(line, level, 0);
    assert forall|i: int| 0 <= i < line.len() implies #[trigger] covered(segs, i) by {
        let k = lemma_tiles_cover(segs, 0, line.len() as int, i);
    }
    assert forall|i: int, k: int, l: int| holds(segs, k, i) && holds(segs, l, i) implies k
        == l by {
        if k < l {
            lemma_tiles_ordered(segs, 0, line.len() as int, k, l);
        }
        if l < k {
            lemma_tiles_ordered(segs, 0, line.len() as int, l, k);
        }
    }
}

/// A higher threshold never gives more segments.
pub proof fn lemma_segments_monotone(line: Seq<Pixel>, low: int, high: int)
    requires
        low <= high,
    ensures
        segments_of(line, high).len() <= segments_of(line, low).len(),
{
    lemma_runs_monotone(line, low, high, 0, 0);
}

proof fn lemma_runs_monotone(line: Seq<Pixel>, low: int, high: int, from_low: int, from_high: int)
    requires
        low <= high,
        0 <= from_low <= from_high,
    ensures
        runs_from(line, high, from_high).len() <= runs_from(line, low, from_low).len(),
    decreases line.len() - from_low,
{
    if from_high < line.len() {
        lemma_run_end(line, low, from_low);
        lemma_run_end(line, high, from_high);
        let end_low = run_end(line, low, from_low);
        let end_high = run_end(line, high, from_high);
        if end_high < line.len() {
            assert(is_cut(line, high, end_high));
            assert(is_cut(line, low, end_high));
        }
        assert(end_low <= end_high);
        lemma_runs_monotone(line, low, high, end_low, end_high);
    }
}

/// Under a threshold that no distance exceeds, a line is one segment.
pub proof fn lemma_one_segment(line: Seq<Pixel>, level: int)
    requires
        level >= MAX_CHANNEL_SUM,
    ensures
        line.len() > 0 ==> segments_of(line, level) == seq![(0int, line.len() as int)],
        line.len() == 0 ==> segments_of(line, level) == Seq::<(int, int)>::empty(),
{
    if line.len() > 0 {
        lemma_run_end_is(line, level, 0, line.len() as int);
        assert(runs_from(line, level, line.len() as int) =~= Seq::empty());
        assert(segments_of(line, level) =~= seq![(0int, line.len() as int)]);
    }
}

/// Where every pixel is further than `level` from the one before it, every
/// pixel is a segment of its own.
pub proof fn lemma_unit_segments(line: Seq<Pixel>, level: int)
    requires
        forall|i: int| 0 < i < line.len() ==> distance(line[i - 1], #[trigger] line[i]) > level,
    ensures
        segments_of(line, level) == Seq::new(line.len(), |i: int| (i, i + 1)),
{
    lemma_unit_runs(line, level, 0);
    assert(segments_of(line, level) =~= Seq::new(line.len(), |i: int| (i, i + 1)));
}

proof fn lemma_unit_runs(line: Seq<Pixel>, level: int, start: int)
    requires
        0 <= start <= line.len(),
        forall|i: int| 0 < i < line.len() ==> distance(line[i - 1], #[trigger] line[i]) > level,
    ensures
        runs_from(line, level, start) == Seq::new(
            (line.len() - start) as nat,
            |k: int| (start + k, start + k + 1),
        ),
    decreases line.len() - start,
{
    if start < line.len() {
        if start + 1 < line.len() {
            assert(is_cut(line, level, start + 1)) by {
                assert(distance(line[start + 1 - 1], line[start + 1]) > level);
            }
        }
        assert(run_end(line, level, start) == start + 1);
        lemma_unit_runs(line, level, start + 1);
        assert(runs_from(line, level, start) =~= Seq::new(
            (line.len() - start) as nat,
            |k: int| (start + k, start + k + 1),
        ));
    } else {
        assert(runs_from(line, level, start) =~= Seq::new(
            (line.len() - start) as nat,
            |k: int| (start + k, start + k + 1),
        ));
    }
}

/// Every segment starts at the first pixel or at a cut, holds no cut behind its
/// first pixel, and ends at a cut or at the end of the line: the segments are
/// the longest stretches without a cut inside.
pub proof fn lemma_segments_at_cuts(line: Seq<Pixel>, level: int, k: int)
    requires
        0 <= k < segments_of(line, level).len(),
    ensures
        segments_of(line, level)[k].0 == 0 || is_cut(line, level, segments_of(line, level)[k].0),
        forall|j: int|
            segments_of(line, level)[k].0 < j < segments_of(line, level)[k].1 ==> !is_cut(
                line,
                level,
                j,
            ),
        segments_of(line, level)[k].1 == line.len() || is_cut(
            line,
            level,
            segments_of(line, level)[k].1,
        ),
{
    lemma_runs_at_cuts(line, level, 0, k);
}

proof fn lemma_runs_at_cuts(line: Seq<Pixel>, level: int, start: int, k: int)
    requires
        start == 0 || is_cut(line, level, start),
        0 <= k < runs_from(line, level, start).len(),
    ensures
        runs_from(line, level, start)[k].0 == 0 || is_cut(
            line,
            level,
            runs_from(line, level, start)[k].0,
        ),
        forall|j: int|
            runs_from(line, level, start)[k].0 < j < runs_from(line, level, start)[k].1
                ==> !is_cut(line, level, j),
        runs_from(line, level, start)[k].1 == line.len() || is_cut(
            line,
            level,
            runs_from(line, level, start)[k].1,
        ),
    decreases line.len() - start,
{
    lemma_run_end(line, level, start);
    let end = run_end(line, level, start);
    if k > 0 {
        assert(runs_from(line, level, start)[k] == runs_from(line, level, end)[k - 1]);
        lemma_runs_at_cuts(line, level, end, k - 1);
    }
}

} // verus!
