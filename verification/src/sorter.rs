//! Sorting runs of pixels in place: a merge sort that keeps equally bright
//! pixels in their order.

use crate::order::{lemma_merged_sorts, lemma_sorted_when_descending, lemma_stable_sorted};
use crate::order::{is_descending, merged, stable_sorted};
use crate::pixel::Pixel;
use crate::segment::{as_ranges, lemma_tiles_ordered, tiles};
use vstd::prelude::*;

verus! {

/// `line` with the cells from `start` up to `end` replaced by `middle`.
pub open spec fn spliced(line: Seq<Pixel>, start: int, end: int, middle: Seq<Pixel>) -> Seq<
    Pixel,
> {
    line.subrange(0, start) + middle + line.subrange(end, line.len() as int)
}

/// The runs of `line` that `segs` names, each one sorted, joined in the order
/// of `segs`.
pub open spec fn sorted_runs(line: Seq<Pixel>, segs: Seq<(int, int)>) -> Seq<Pixel>
    decreases segs.len(),
{
    if segs.len() == 0 {
        Seq::empty()
    } else {
        sorted_runs(line, segs.drop_last()) + stable_sorted(
            line.subrange(segs.last().0, segs.last().1),
        )
    }
}

/// Where range `k` of `segs` starts, and `to` behind the last range.
spec fn edge(segs: Seq<(int, int)>, k: int, to: int) -> int {
    if k < segs.len() {
        segs[k].0
    } else {
        to
    }
}

/// Merges the descending runs `line[start..mid]` and `line[mid..end]` in place.
/// `scratch` is working space: what it held is lost.
fn merge_runs(
    line: &mut Vec<Pixel>,
    scratch: &mut Vec<Pixel>,
    start: usize,
    mid: usize,
    end: usize,
)
    requires
        start <= mid <= end <= old(line)@.len(),
    ensures
        final(line)@ == spliced(
            old(line)@,
            start as int,
            end as int,
            merged(
                old(line)@.subrange(start as int, mid as int),
                old(line)@.subrange(mid as int, end as int),
            ),
        ),
{
    let ghost a = line@.subrange(start as int, mid as int);
    let ghost b = line@.subrange(mid as int, end as int);
    scratch.clear();
    let mut i: usize = start;
    let mut j: usize = mid;
    proof {
        assert(a.skip(0) =~= a && b.skip(0) =~= b);
        assert(scratch@ + merged(a, b) =~= merged(a, b));
    }
    while i < mid && j < end
        invariant
            start <= i <= mid <= j <= end <= line@.len(),
            line@ == old(line)@,
            a == line@.subrange(start as int, mid as int),
            b == line@.subrange(mid as int, end as int),
            scratch@.len() == (i - start) + (j - mid),
            scratch@ + merged(a.skip(i - start), b.skip(j - mid)) == merged(a, b),
        decreases (mid - i) + (end - j),
    {
        let ghost rest_a = a.skip(i - start);
        let ghost rest_b = b.skip(j - mid);
        assert(rest_a[0] == line@[i as int] && rest_b[0] == line@[j as int]);
        if line[i].brightness() >= line[j].brightness() {
            proof {
                assert(rest_a.skip(1) =~= a.skip(i + 1 - start));
                assert(scratch@.push(line@[i as int]) + merged(rest_a.skip(1), rest_b)
                    =~= scratch@ + merged(rest_a, rest_b));
            }
            scratch.push(line[i]);
            i += 1;
        } else {
            proof {
                assert(rest_b.skip(1) =~= b.skip(j + 1 - mid));
                assert(scratch@.push(line@[j as int]) + merged(rest_a, rest_b.skip(1))
                    =~= scratch@ + merged(rest_a, rest_b));
            }
            scratch.push(line[j]);
            j += 1;
        }
    }
    // One of the two runs is used up: what is left of the other follows as it is.
    assert(merged(a.skip(i - start), b.skip(j - mid)) =~= a.skip(i - start) + b.skip(j - mid));
    while i < mid
        invariant
            start <= i <= mid <= j <= end <= line@.len(),
            line@ == old(line)@,
            a == line@.subrange(start as int, mid as int),
            b == line@.subrange(mid as int, end as int),
            i < mid ==> j == end,
            scratch@.len() == (i - start) + (j - mid),
            scratch@ + a.skip(i - start) + b.skip(j - mid) == merged(a, b),
        decreases mid - i,
    {
        assert(scratch@.push(line@[i as int]) + a.skip(i + 1 - start) + b.skip(j - mid)
            =~= scratch@ + a.skip(i - start) + b.skip(j - mid));
        scratch.push(line[i]);
        i += 1;
    }
    while j < end
        invariant
            start <= i <= mid <= j <= end <= line@.len(),
            line@ == old(line)@,
            a == line@.subrange(start as int, mid as int),
            b == line@.subrange(mid as int, end as int),
            i == mid,
            scratch@.len() == (i - start) + (j - mid),
            scratch@ + a.skip(i - start) + b.skip(j - mid) == merged(a, b),
        decreases end - j,
    {
        assert(scratch@.push(line@[j as int]) + a.skip(i - start) + b.skip(j + 1 - mid)
            =~= scratch@ + a.skip(i - start) + b.skip(j - mid));
        scratch.push(line[j]);
        j += 1;
    }
    assert(scratch@ =~= merged(a, b));
    let mut k: usize = 0;
    while k < end - start
        invariant
            start <= end <= line@.len(),
            line@.len() == old(line)@.len(),
            scratch@.len() == end - start,
            k <= end - start,
            line@ == old(line)@.subrange(0, start as int) + scratch@.subrange(0, k as int) + old(
                line,
            )@.subrange(start + k, old(line)@.len() as int),
        decreases end - start - k,
    {
        line[start + k] = scratch[k];
        k += 1;
        assert(line@ =~= old(line)@.subrange(0, start as int) + scratch@.subrange(0, k as int)
            + old(line)@.subrange(start + k, old(line)@.len() as int));
    }
    assert(scratch@.subrange(0, k as int) =~= scratch@);
}

/// `sort_run` with working space handed in: each half of the run is sorted,
/// then the two are merged. What `scratch` held is lost.
fn sort_span(line: &mut Vec<Pixel>, scratch: &mut Vec<Pixel>, start: usize, end: usize)
    requires
        start <= end <= old(line)@.len(),
    ensures
        final(line)@ == spliced(
            old(line)@,
            start as int,
            end as int,
            stable_sorted(old(line)@.subrange(start as int, end as int)),
        ),
    decreases end - start,
{
    let ghost before = line@;
    let ghost whole = before.subrange(start as int, end as int);
    if end - start < 2 {
        proof {
            lemma_sorted_when_descending(whole);
            assert(line@ =~= spliced(before, start as int, end as int, whole));
        }
        return ;
    }
    let mid = start + (end - start) / 2;
    let ghost x = before.subrange(start as int, mid as int);
    let ghost y = before.subrange(mid as int, end as int);
    sort_span(line, scratch, start, mid);
    proof {
        lemma_stable_sorted(x);
        assert(line@.subrange(mid as int, end as int) =~= y);
    }
    sort_span(line, scratch, mid, end);
    proof {
        lemma_stable_sorted(y);
        assert(line@.subrange(start as int, mid as int) =~= stable_sorted(x));
        assert(line@.subrange(mid as int, end as int) =~= stable_sorted(y));
        assert(line@.subrange(0, start as int) =~= before.subrange(0, start as int));
        assert(line@.subrange(end as int, line@.len() as int) =~= before.subrange(
            end as int,
            before.len() as int,
        ));
    }
    merge_runs(line, scratch, start, mid, end);
    proof {
        lemma_merged_sorts(x, y);
        assert(x + y =~= whole);
    }
}

/// Orders the pixels `line[start..end]` by descending brightness, equally
/// bright ones staying in their order; the rest of `line` is left as it is.
pub fn sort_run(line: &mut Vec<Pixel>, start: usize, end: usize)
    requires
        start <= end <= old(line)@.len(),
    ensures
        final(line)@ == spliced(
            old(line)@,
            start as int,
            end as int,
            stable_sorted(old(line)@.subrange(start as int, end as int)),
        ),
{
    let mut scratch: Vec<Pixel> = Vec::new();
    sort_span(line, &mut scratch, start, end);
}

/// Sorts every run of `line` that `segments` names; no pixel leaves its run.
pub fn sort_segments(line: &mut Vec<Pixel>, segments: &Vec<(usize, usize)>)
    requires
        tiles(as_ranges(segments@), 0, old(line)@.len() as int),
    ensures
        final(line)@ == sorted_runs(old(line)@, as_ranges(segments@)),
{
    let ghost before = line@;
    let ghost segs = as_ranges(segments@);
    let ghost len = before.len() as int;
    let count = segments.len();
    let mut scratch: Vec<Pixel> = Vec::new();
    let mut k: usize = 0;
    proof {
        lemma_tiles_front(segs, 0, len, 0);
        assert(sorted_runs(before, segs.take(0)) =~= Seq::<Pixel>::empty());
        assert(line@ =~= sorted_runs(before, segs.take(0)) + before.subrange(
            edge(segs, 0, len),
            len,
        ));
    }
    while k < count
        invariant
            before == old(line)@,
            segs == as_ranges(segments@),
            len == before.len(),
            count == segments@.len(),
            k <= count,
            tiles(segs, 0, len),
            0 <= edge(segs, k as int, len) <= len,
            sorted_runs(before, segs.take(k as int)).len() == edge(segs, k as int, len),
            line@ == sorted_runs(before, segs.take(k as int)) + before.subrange(
                edge(segs, k as int, len),
                len,
            ),
        decreases count - k,
    {
        let (start, end) = segments[k];
        let ghost done = sorted_runs(before, segs.take(k as int));
        proof {
            lemma_tiles_front(segs, 0, len, k as int);
            lemma_tiles_front(segs, 0, len, k + 1);
            assert(segs[k as int] == (start as int, end as int));
            assert(segs.take(k + 1).drop_last() =~= segs.take(k as int));
            assert(segs.take(k + 1).last() == segs[k as int]);
            lemma_stable_sorted(before.subrange(start as int, end as int));
            assert(line@.subrange(0, start as int) =~= done);
            assert(line@.subrange(start as int, end as int) =~= before.subrange(
                start as int,
                end as int,
            ));
            assert(line@.subrange(end as int, len) =~= before.subrange(end as int, len));
        }
        sort_span(line, &mut scratch, start, end);
        k += 1;
        assert(line@ =~= sorted_runs(before, segs.take(k as int)) + before.subrange(
            edge(segs, k as int, len),
            len,
        ));
    }
    assert(segs.take(k as int) =~= segs);
    assert(before.subrange(len, len) =~= Seq::<Pixel>::empty());
}

/// The first `k` of ranges that lie end to end lie end to end themselves, up
/// to where range `k` starts.
proof fn lemma_tiles_front(segs: Seq<(int, int)>, from: int, to: int, k: int)
    requires
        tiles(segs, from, to),
        0 <= k <= segs.len(),
    ensures
        tiles(segs.take(k), from, edge(segs, k, to)),
        from <= edge(segs, k, to) <= to,
        k < segs.len() ==> edge(segs, k + 1, to) == segs[k].1,
    decreases k,
{
    let front = segs.take(k);
    if k < segs.len() {
        let last = segs.len() - 1;
        assert(segs[last].0 < segs[last].1);
        assert(segs[k].0 < segs[k].1);
        if k < last {
            lemma_tiles_ordered(segs, from, to, k, last);
            assert(segs[k].1 == segs[k + 1].0);
        }
    }
    if k > 0 {
        lemma_tiles_front(segs, from, to, k - 1);
        assert(front[k - 1] == segs[k - 1]);
        assert(front[0] == segs[0]);
    }
    assert forall|a: int| 0 <= a < front.len() implies (#[trigger] front[a]).0 < front[a].1 by {
        assert(front[a] == segs[a]);
    }
    assert forall|a: int, b: int| 0 <= a && b == a + 1 && b < front.len() implies (
    #[trigger] front[a]).1 == (#[trigger] front[b]).0 by {
        assert(front[a] == segs[a] && front[b] == segs[b]);
    }
}

/// Sorting the runs of a stretch of `line` one by one gives as many pixels as
/// the stretch has, and the same pixels.
pub proof fn lemma_sorted_runs(line: Seq<Pixel>, segs: Seq<(int, int)>, from: int, to: int)
    requires
        tiles(segs, from, to),
        0 <= from,
        to <= line.len(),
    ensures
        sorted_runs(line, segs).len() == to - from,
        sorted_runs(line, segs).to_multiset() == line.subrange(from, to).to_multiset(),
    decreases segs.len(),
{
    broadcast use vstd::seq_lib::lemma_multiset_commutative;

    if segs.len() == 0 {
        assert(line.subrange(from, to) =~= Seq::<Pixel>::empty());
    } else {
        let n = segs.len() as int;
        let (start, end) = segs.last();
        lemma_tiles_front(segs, from, to, n - 1);
        assert(segs.take(n - 1) =~= segs.drop_last());
        lemma_sorted_runs(line, segs.drop_last(), from, start);
        lemma_stable_sorted(line.subrange(start, end));
        assert(line.subrange(from, to) =~= line.subrange(from, start) + line.subrange(start, end));
    }
}

/// No pixel leaves its run: where the runs lie end to end from the start of
/// the line, each run of the result is that run of `line`, sorted.
pub proof fn lemma_sorted_runs_stay(line: Seq<Pixel>, segs: Seq<(int, int)>, to: int, k: int)
    requires
        tiles(segs, 0, to),
        to <= line.len(),
        0 <= k < segs.len(),
    ensures
        0 <= segs[k].0 < segs[k].1 <= to,
        sorted_runs(line, segs).subrange(segs[k].0, segs[k].1) == stable_sorted(
            line.subrange(segs[k].0, segs[k].1),
        ),
    decreases segs.len(),
{
    let n = segs.len() as int;
    let front = segs.drop_last();
    let (start, end) = segs.last();
    lemma_tiles_front(segs, 0, to, n - 1);
    assert(segs.take(n - 1) =~= front);
    lemma_sorted_runs(line, front, 0, start);
    lemma_stable_sorted(line.subrange(start, end));
    if k == n - 1 {
        assert(sorted_runs(line, segs).subrange(start, end) =~= stable_sorted(
            line.subrange(start, end),
        ));
    } else {
        assert(front[k] == segs[k]);
        lemma_sorted_runs_stay(line, front, start, k);
        assert(sorted_runs(line, segs).subrange(segs[k].0, segs[k].1) =~= sorted_runs(
            line,
            front,
        ).subrange(segs[k].0, segs[k].1));
    }
}

/// Where every run that `segs` names is descending already, sorting the runs
/// changes nothing.
pub proof fn lemma_sorted_runs_when_descending(
    line: Seq<Pixel>,
    segs: Seq<(int, int)>,
    from: int,
    to: int,
)
    requires
        tiles(segs, from, to),
        0 <= from,
        to <= line.len(),
        forall|k: int|
            0 <= k < segs.len() ==> is_descending(
                line.subrange((#[trigger] segs[k]).0, segs[k].1),
            ),
    ensures
        sorted_runs(line, segs) == line.subrange(from, to),
    decreases segs.len(),
{
    if segs.len() == 0 {
        assert(line.subrange(from, to) =~= Seq::<Pixel>::empty());
    } else {
        let n = segs.len() as int;
        let front = segs.drop_last();
        let (start, end) = segs.last();
        lemma_tiles_front(segs, from, to, n - 1);
        assert(segs.take(n - 1) =~= front);
        assert forall|k: int| 0 <= k < front.len() implies is_descending(
            line.subrange((#[trigger] front[k]).0, front[k].1),
        ) by {
            assert(front[k] == segs[k]);
        }
        lemma_sorted_runs_when_descending(line, front, from, start);
        assert(is_descending(line.subrange(segs[n - 1].0, segs[n - 1].1)));
        lemma_sorted_when_descending(line.subrange(start, end));
        assert(line.subrange(from, to) =~= line.subrange(from, start) + line.subrange(start, end));
    }
}

} // verus!
