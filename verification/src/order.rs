//! The order the filter puts a run of pixels in, as mathematics: descending
//! brightness, equally bright pixels in the order they came in. The sorter is
//! proved against `stable_sorted`; the laws below say why that function is the
//! order meant.

use crate::pixel::{brightness, Pixel};
use vstd::prelude::*;

verus! {

/// No pixel of `s` is brighter than one that stands before it.
pub open spec fn is_descending(s: Seq<Pixel>) -> bool {
    forall|i: int, j: int| 0 <= i < j < s.len() ==> brightness(s[i]) >= brightness(s[j])
}

/// Every pixel of `s` has brightness `k` or more.
spec fn all_at_least(s: Seq<Pixel>, k: int) -> bool {
    forall|i: int| 0 <= i < s.len() ==> brightness(#[trigger] s[i]) >= k
}

/// Every pixel of `s` has brightness `k` or less.
spec fn all_at_most(s: Seq<Pixel>, k: int) -> bool {
    forall|i: int| 0 <= i < s.len() ==> brightness(#[trigger] s[i]) <= k
}

/// The pixels of `s` whose brightness is `k`, in the order they have in `s`.
pub open spec fn with_brightness(s: Seq<Pixel>, k: int) -> Seq<Pixel>
    decreases s.len(),
{
    if s.len() == 0 {
        s
    } else if brightness(s.last()) == k {
        with_brightness(s.drop_last(), k).push(s.last())
    } else {
        with_brightness(s.drop_last(), k)
    }
}

/// The one pixel `p` where its brightness is `k`, else nothing.
pub open spec fn only_if_brightness(p: Pixel, k: int) -> Seq<Pixel> {
    if brightness(p) == k {
        seq![p]
    } else {
        Seq::empty()
    }
}

/// The descending sequence `s` with `p` put in behind every pixel that is at
/// least as bright as `p`.
pub open spec fn inserted(s: Seq<Pixel>, p: Pixel) -> Seq<Pixel>
    decreases s.len(),
{
    if s.len() == 0 || brightness(s.last()) >= brightness(p) {
        s.push(p)
    } else {
        inserted(s.drop_last(), p).push(s.last())
    }
}

/// The pixels of `s` by descending brightness; where two are equally bright,
/// the one that stands first in `s` stands first in the result.
pub open spec fn stable_sorted(s: Seq<Pixel>) -> Seq<Pixel>
    decreases s.len(),
{
    if s.len() == 0 {
        s
    } else {
        inserted(stable_sorted(s.drop_last()), s.last())
    }
}

/// Two descending sequences run into one: the brighter head goes first, and
/// on a tie the head of `a`.
pub open spec fn merged(a: Seq<Pixel>, b: Seq<Pixel>) -> Seq<Pixel>
    decreases a.len() + b.len(),
{
    if a.len() == 0 {
        b
    } else if b.len() == 0 {
        a
    } else if brightness(a[0]) >= brightness(b[0]) {
        seq![a[0]] + merged(a.skip(1), b)
    } else {
        seq![b[0]] + merged(a, b.skip(1))
    }
}

/// Picking out one brightness goes through a concatenation.
pub proof fn lemma_with_brightness_concat(a: Seq<Pixel>, b: Seq<Pixel>, k: int)
    ensures
        with_brightness(a + b, k) == with_brightness(a, k) + with_brightness(b, k),
    decreases b.len(),
{
    if b.len() == 0 {
        assert(a + b =~= a);
        assert(with_brightness(a, k) + with_brightness(b, k) =~= with_brightness(a, k));
    } else {
        lemma_with_brightness_concat(a, b.drop_last(), k);
        assert((a + b).drop_last() =~= a + b.drop_last());
        assert((a + b).last() == b.last());
        assert(with_brightness(a + b, k) =~= with_brightness(a, k) + with_brightness(b, k));
    }
}

/// A sequence without a pixel of brightness `k` gives nothing when asked for
/// that brightness.
pub proof fn lemma_with_brightness_none(s: Seq<Pixel>, k: int)
    requires
        forall|i: int| 0 <= i < s.len() ==> brightness(#[trigger] s[i]) != k,
    ensures
        with_brightness(s, k).len() == 0,
    decreases s.len(),
{
    if s.len() > 0 {
        assert forall|i: int| 0 <= i < s.drop_last().len() implies brightness(
            #[trigger] s.drop_last()[i],
        ) != k by {
            assert(s.drop_last()[i] == s[i]);
        }
        lemma_with_brightness_none(s.drop_last(), k);
        assert(brightness(s[s.len() - 1]) != k);
    }
}

proof fn lemma_with_brightness_one(p: Pixel, k: int)
    ensures
        with_brightness(seq![p], k) == only_if_brightness(p, k),
{
    assert(seq![p].drop_last() =~= Seq::<Pixel>::empty());
    assert(with_brightness(Seq::<Pixel>::empty(), k) =~= Seq::<Pixel>::empty());
    assert(with_brightness(seq![p], k) =~= only_if_brightness(p, k));
}

/// A descending sequence without its last pixel is descending, and the last
/// pixel is its least bright.
proof fn lemma_drop_last_descending(s: Seq<Pixel>)
    requires
        is_descending(s),
        s.len() > 0,
    ensures
        is_descending(s.drop_last()),
        all_at_least(s.drop_last(), brightness(s.last())),
        all_at_least(s, brightness(s.last())),
{
    let front = s.drop_last();
    assert forall|i: int, j: int| 0 <= i < j < front.len() implies brightness(front[i])
        >= brightness(front[j]) by {
        assert(front[i] == s[i] && front[j] == s[j]);
    }
    assert forall|i: int| 0 <= i < front.len() implies brightness(#[trigger] front[i])
        >= brightness(s.last()) by {
        assert(front[i] == s[i]);
    }
}

/// A descending sequence without its first pixel is descending, and the first
/// pixel is its brightest.
proof fn lemma_skip_first_descending(s: Seq<Pixel>)
    requires
        is_descending(s),
        s.len() > 0,
    ensures
        is_descending(s.skip(1)),
        all_at_most(s.skip(1), brightness(s[0])),
        all_at_most(s, brightness(s[0])),
{
    let rest = s.skip(1);
    assert forall|i: int, j: int| 0 <= i < j < rest.len() implies brightness(rest[i])
        >= brightness(rest[j]) by {
        assert(rest[i] == s[i + 1] && rest[j] == s[j + 1]);
    }
    assert forall|i: int| 0 <= i < rest.len() implies brightness(#[trigger] rest[i]) <= brightness(
        s[0],
    ) by {
        assert(rest[i] == s[i + 1]);
    }
}

/// A pixel before a descending sequence of pixels no brighter than it makes
/// a descending sequence.
proof fn lemma_head_then_descending(p: Pixel, rest: Seq<Pixel>)
    requires
        is_descending(rest),
        all_at_most(rest, brightness(p)),
    ensures
        is_descending(seq![p] + rest),
{
    let s = seq![p] + rest;
    assert forall|i: int, j: int| 0 <= i < j < s.len() implies brightness(s[i]) >= brightness(
        s[j],
    ) by {
        assert(s[j] == rest[j - 1]);
        if i > 0 {
            assert(s[i] == rest[i - 1]);
        }
    }
}

proof fn lemma_inserted_bound(s: Seq<Pixel>, p: Pixel, k: int)
    requires
        all_at_least(s, k),
        brightness(p) >= k,
    ensures
        all_at_least(inserted(s, p), k),
    decreases s.len(),
{
    if s.len() == 0 || brightness(s.last()) >= brightness(p) {
    } else {
        assert forall|i: int| 0 <= i < s.drop_last().len() implies brightness(
            #[trigger] s.drop_last()[i],
        ) >= k by {
            assert(s.drop_last()[i] == s[i]);
        }
        lemma_inserted_bound(s.drop_last(), p, k);
        assert(brightness(s[s.len() - 1]) >= k);
    }
}

/// Putting a pixel in adds that pixel and nothing else, keeps a descending
/// sequence descending, and leaves the pixels of each brightness in their
/// order, the new one last among its equals.
pub proof fn lemma_inserted(s: Seq<Pixel>, p: Pixel)
    ensures
        inserted(s, p).len() == s.len() + 1,
        inserted(s, p).to_multiset() == s.to_multiset().insert(p),
        is_descending(s) ==> is_descending(inserted(s, p)),
        forall|k: int| #[trigger]
            with_brightness(inserted(s, p), k) == with_brightness(s, k) + only_if_brightness(p, k),
    decreases s.len(),
{
    broadcast use vstd::seq_lib::group_to_multiset_ensures;

    let t = inserted(s, p);
    if s.len() == 0 || brightness(s.last()) >= brightness(p) {
        assert(t.drop_last() =~= s);
        assert forall|k: int| #[trigger]
            with_brightness(t, k) == with_brightness(s, k) + only_if_brightness(p, k) by {
            assert(with_brightness(t, k) =~= with_brightness(s, k) + only_if_brightness(p, k));
        }
    } else {
        let front = s.drop_last();
        let u = inserted(front, p);
        lemma_inserted(front, p);
        assert(t.drop_last() =~= u);
        assert(s == front.push(s.last()));
        assert(t.to_multiset() =~= s.to_multiset().insert(p));
        assert forall|k: int| #[trigger]
            with_brightness(t, k) == with_brightness(s, k) + only_if_brightness(p, k) by {
            assert(with_brightness(u, k) == with_brightness(front, k) + only_if_brightness(p, k));
            assert(with_brightness(t, k) =~= with_brightness(s, k) + only_if_brightness(p, k));
        }
        if is_descending(s) {
            lemma_drop_last_descending(s);
            lemma_inserted_bound(front, p, brightness(s.last()));
            assert forall|i: int, j: int| 0 <= i < j < t.len() implies brightness(t[i])
                >= brightness(t[j]) by {
                assert(t[i] == u[i]);
                if j < u.len() {
                    assert(t[j] == u[j]);
                }
            }
        }
    }
}

/// What sorting does: the result is descending, holds the pixels of the input
/// and no others, and keeps the pixels of each brightness in their order.
pub proof fn lemma_stable_sorted(s: Seq<Pixel>)
    ensures
        stable_sorted(s).len() == s.len(),
        stable_sorted(s).to_multiset() == s.to_multiset(),
        is_descending(stable_sorted(s)),
        forall|k: int| #[trigger] with_brightness(stable_sorted(s), k) == with_brightness(s, k),
    decreases s.len(),
{
    broadcast use vstd::seq_lib::group_to_multiset_ensures;

    if s.len() > 0 {
        let front = s.drop_last();
        lemma_stable_sorted(front);
        lemma_inserted(stable_sorted(front), s.last());
        assert(s == front.push(s.last()));
        assert forall|k: int| #[trigger]
            with_brightness(stable_sorted(s), k) == with_brightness(s, k) by {
            assert(with_brightness(stable_sorted(front), k) == with_brightness(front, k));
            assert(with_brightness(s, k) =~= with_brightness(front, k) + only_if_brightness(
                s.last(),
                k,
            ));
        }
    }
}

/// A descending sequence is fixed by the pixels it holds of each brightness
/// and their order: two that agree on these for every brightness are the same.
pub proof fn lemma_descending_unique(u: Seq<Pixel>, v: Seq<Pixel>)
    requires
        is_descending(u),
        is_descending(v),
        forall|k: int| #[trigger] with_brightness(u, k) == with_brightness(v, k),
    ensures
        u == v,
    decreases u.len(),
{
    if u.len() == 0 {
        if v.len() > 0 {
            let k1 = brightness(v.last());
            assert(with_brightness(v, k1).len() > 0);
            assert(with_brightness(u, k1) == with_brightness(v, k1));
        }
        assert(u =~= v);
    } else {
        let p = u.last();
        let k0 = brightness(p);
        assert(with_brightness(u, k0) == with_brightness(u.drop_last(), k0).push(p));
        assert(with_brightness(u, k0) == with_brightness(v, k0));
        assert(v.len() > 0);
        let q = v.last();
        let k1 = brightness(q);
        assert(with_brightness(v, k1) == with_brightness(v.drop_last(), k1).push(q));
        assert(with_brightness(u, k1) == with_brightness(v, k1));
        lemma_drop_last_descending(u);
        lemma_drop_last_descending(v);
        if k1 < k0 {
            lemma_with_brightness_none(u, k1);
        }
        if k0 < k1 {
            lemma_with_brightness_none(v, k0);
        }
        assert(p == q) by {
            assert(with_brightness(u, k0).last() == p);
            assert(with_brightness(v, k0).last() == q);
        }
        assert forall|k: int| #[trigger]
            with_brightness(u.drop_last(), k) == with_brightness(v.drop_last(), k) by {
            assert(with_brightness(u, k) == with_brightness(v, k));
            if k == k0 {
                assert(with_brightness(u.drop_last(), k) =~= with_brightness(u, k).drop_last());
                assert(with_brightness(v.drop_last(), k) =~= with_brightness(v, k).drop_last());
            }
        }
        lemma_descending_unique(u.drop_last(), v.drop_last());
        assert(u =~= u.drop_last().push(p));
        assert(v =~= v.drop_last().push(q));
    }
}

/// So `stable_sorted(s)` is the one sequence that is descending and holds,
/// for every brightness, the pixels that `s` holds of it, in their order.
pub proof fn lemma_stable_sorted_is_the_only(s: Seq<Pixel>, t: Seq<Pixel>)
    requires
        is_descending(t),
        forall|k: int| #[trigger] with_brightness(t, k) == with_brightness(s, k),
    ensures
        t == stable_sorted(s),
{
    lemma_stable_sorted(s);
    assert forall|k: int| #[trigger] with_brightness(t, k) == with_brightness(
        stable_sorted(s),
        k,
    ) by {
        assert(with_brightness(t, k) == with_brightness(s, k));
        assert(with_brightness(stable_sorted(s), k) == with_brightness(s, k));
    }
    lemma_descending_unique(t, stable_sorted(s));
}

/// A sequence that is descending already is its own sorted form.
pub proof fn lemma_sorted_when_descending(s: Seq<Pixel>)
    requires
        is_descending(s),
    ensures
        stable_sorted(s) == s,
{
    lemma_stable_sorted_is_the_only(s, s);
}

proof fn lemma_merged_bound(a: Seq<Pixel>, b: Seq<Pixel>, k: int)
    requires
        all_at_most(a, k),
        all_at_most(b, k),
    ensures
        all_at_most(merged(a, b), k),
    decreases a.len() + b.len(),
{
    if a.len() == 0 || b.len() == 0 {
    } else if brightness(a[0]) >= brightness(b[0]) {
        let rest = merged(a.skip(1), b);
        assert forall|i: int| 0 <= i < a.skip(1).len() implies brightness(#[trigger] a.skip(1)[i])
            <= k by {
            assert(a.skip(1)[i] == a[i + 1]);
        }
        lemma_merged_bound(a.skip(1), b, k);
        assert forall|i: int| 0 <= i < merged(a, b).len() implies brightness(
            #[trigger] merged(a, b)[i],
        ) <= k by {
            if i > 0 {
                assert(merged(a, b)[i] == rest[i - 1]);
            }
        }
    } else {
        let rest = merged(a, b.skip(1));
        assert forall|i: int| 0 <= i < b.skip(1).len() implies brightness(#[trigger] b.skip(1)[i])
            <= k by {
            assert(b.skip(1)[i] == b[i + 1]);
        }
        lemma_merged_bound(a, b.skip(1), k);
        assert forall|i: int| 0 <= i < merged(a, b).len() implies brightness(
            #[trigger] merged(a, b)[i],
        ) <= k by {
            if i > 0 {
                assert(merged(a, b)[i] == rest[i - 1]);
            }
        }
    }
}

/// Merging two descending sequences gives a descending one that keeps, for
/// each brightness, the pixels of `a` in their order and then those of `b`.
pub proof fn lemma_merged(a: Seq<Pixel>, b: Seq<Pixel>)
    requires
        is_descending(a),
        is_descending(b),
    ensures
        merged(a, b).len() == a.len() + b.len(),
        is_descending(merged(a, b)),
        forall|k: int| #[trigger]
            with_brightness(merged(a, b), k) == with_brightness(a, k) + with_brightness(b, k),
    decreases a.len() + b.len(),
{
    let m = merged(a, b);
    if a.len() == 0 || b.len() == 0 {
        assert forall|k: int| #[trigger]
            with_brightness(m, k) == with_brightness(a, k) + with_brightness(b, k) by {
            assert(with_brightness(m, k) =~= with_brightness(a, k) + with_brightness(b, k));
        }
    } else if brightness(a[0]) >= brightness(b[0]) {
        let tail = a.skip(1);
        let rest = merged(tail, b);
        lemma_skip_first_descending(a);
        lemma_skip_first_descending(b);
        lemma_merged(tail, b);
        lemma_merged_bound(tail, b, brightness(a[0]));
        lemma_head_then_descending(a[0], rest);
        assert(a =~= seq![a[0]] + tail);
        assert forall|k: int| #[trigger]
            with_brightness(m, k) == with_brightness(a, k) + with_brightness(b, k) by {
            lemma_with_brightness_one(a[0], k);
            lemma_with_brightness_concat(seq![a[0]], rest, k);
            lemma_with_brightness_concat(seq![a[0]], tail, k);
            assert(with_brightness(rest, k) == with_brightness(tail, k) + with_brightness(b, k));
            assert(with_brightness(m, k) =~= with_brightness(a, k) + with_brightness(b, k));
        }
    } else {
        let tail = b.skip(1);
        let rest = merged(a, tail);
        lemma_skip_first_descending(a);
        lemma_skip_first_descending(b);
        lemma_merged(a, tail);
        assert(all_at_most(a, brightness(b[0])));
        lemma_merged_bound(a, tail, brightness(b[0]));
        lemma_head_then_descending(b[0], rest);
        assert(b =~= seq![b[0]] + tail);
        assert forall|k: int| #[trigger]
            with_brightness(m, k) == with_brightness(a, k) + with_brightness(b, k) by {
            lemma_with_brightness_one(b[0], k);
            lemma_with_brightness_concat(seq![b[0]], rest, k);
            lemma_with_brightness_concat(seq![b[0]], tail, k);
            assert(with_brightness(rest, k) == with_brightness(a, k) + with_brightness(tail, k));
            if brightness(b[0]) == k {
                // Every pixel of `a` is less bright than the head of `b`.
                lemma_with_brightness_none(a, k);
            }
            assert(with_brightness(m, k) =~= with_brightness(a, k) + with_brightness(b, k));
        }
    }
}

/// Sorting two stretches and merging them sorts the two taken together.
pub proof fn lemma_merged_sorts(x: Seq<Pixel>, y: Seq<Pixel>)
    ensures
        merged(stable_sorted(x), stable_sorted(y)) == stable_sorted(x + y),
{
    let m = merged(stable_sorted(x), stable_sorted(y));
    lemma_stable_sorted(x);
    lemma_stable_sorted(y);
    lemma_merged(stable_sorted(x), stable_sorted(y));
    assert forall|k: int| #[trigger] with_brightness(m, k) == with_brightness(x + y, k) by {
        lemma_with_brightness_concat(x, y, k);
        assert(with_brightness(stable_sorted(x), k) == with_brightness(x, k));
        assert(with_brightness(stable_sorted(y), k) == with_brightness(y, k));
    }
    lemma_stable_sorted_is_the_only(x + y, m);
}

} // verus!
