//! What the recorded frames promise: every frame shows the same bars in some
//! order with two distinct positions highlighted, and the animation ends on
//! the bars in ascending order.

use vstd::prelude::*;
use crate::sorting::{frame, bubble_run, insertion_run, selection_run, spec_sort_run, spec_sort_frames, swap_at, FrameView, SortKind};

verus! {

/// The bars are in ascending order.
pub open spec fn is_sorted(a: Seq<i32>) -> bool {
    forall|p: int, q: int| 0 <= p < q < a.len() ==> a[p] <= a[q]
}

/// The bars on screen once all `frames` have been played from `base`: the
/// last frame's bars, or `base` when nothing was recorded.
pub open spec fn played_bars(base: Seq<i32>, frames: Seq<FrameView>) -> Seq<i32> {
    if frames.len() == 0 {
        base
    } else {
        frames.last().0
    }
}

/// A frame shows a rearrangement of `a`, and, when the positions fit the
/// `i32` a frame stores them in (at most `i32::MAX` bars), highlights
/// positions `first < second` inside the bars.
pub open spec fn frame_fits(a: Seq<i32>, f: FrameView) -> bool {
    &&& f.0.len() == a.len()
    &&& f.0.to_multiset() == a.to_multiset()
    &&& a.len() <= i32::MAX ==> 0 <= f.1 < f.2 < a.len()
}

/// What every run records: frames that fit `a`, final bars that rearrange
/// `a`, and a last frame that shows the final bars.
pub open spec fn run_shape(a: Seq<i32>, run: (Seq<FrameView>, Seq<i32>)) -> bool {
    &&& forall|k: int| 0 <= k < run.0.len() ==> frame_fits(a, #[trigger] run.0[k])
    &&& run.1.len() == a.len()
    &&& run.1.to_multiset() == a.to_multiset()
    &&& played_bars(a, run.0) == run.1
}

pub(crate) proof fn lemma_swap_multiset(a: Seq<i32>, x: int, y: int)
    requires
        0 <= x < a.len(),
        0 <= y < a.len(),
    ensures
        swap_at(a, x, y).len() == a.len(),
        swap_at(a, x, y).to_multiset() == a.to_multiset(),
{
    broadcast use vstd::seq_lib::group_to_multiset_ensures, vstd::seq_lib::to_multiset_update;
    broadcast use vstd::multiset::group_multiset_axioms;
    let s1 = a.update(x, a[y]);
    let m = a.to_multiset();
    assert(s1.to_multiset() == m.insert(a[y]).remove(a[x]));
    assert(s1.update(y, a[x]).to_multiset() == s1.to_multiset().insert(a[x]).remove(s1[y]));
    assert(swap_at(a, x, y).to_multiset() =~= m);
}

/// A step that records `pre` in front of a run from `b`, where `b`
/// rearranges `a` and every frame of `pre` fits `a`, keeps the shape.
proof fn lemma_shape_step(a: Seq<i32>, b: Seq<i32>, pre: Seq<FrameView>, rest: (Seq<FrameView>, Seq<i32>))
    requires
        b.len() == a.len(),
        b.to_multiset() == a.to_multiset(),
        pre.len() > 0,
        pre.last().0 == b,
        forall|k: int| 0 <= k < pre.len() ==> frame_fits(a, #[trigger] pre[k]),
        run_shape(b, rest),
    ensures
        run_shape(a, (pre + rest.0, rest.1)),
{
    let all = pre + rest.0;
    assert forall|k: int| 0 <= k < all.len() implies frame_fits(a, #[trigger] all[k]) by {
        if k < pre.len() {
            assert(all[k] == pre[k]);
        } else {
            assert(all[k] == rest.0[k - pre.len()]);
            assert(frame_fits(b, rest.0[k - pre.len()]));
        }
    }
    if rest.0.len() > 0 {
        assert(all.last() == rest.0.last());
    } else {
        assert(all.last() == pre.last());
    }
}

proof fn lemma_bubble_shape(a: Seq<i32>, i: int, j: int)
    ensures
        run_shape(a, bubble_run(a, i, j)),
    decreases a.len() - i, a.len() - j,
{
    if i < 0 || j < 0 || i + 1 >= a.len() {
    } else if j + 1 + i >= a.len() {
        lemma_bubble_shape(a, i + 1, 0);
    } else if a[j] > a[j + 1] {
        let b = swap_at(a, j, j + 1);
        lemma_swap_multiset(a, j, j + 1);
        lemma_bubble_shape(b, i, j + 1);
        lemma_shape_step(a, b, seq![frame(a, j, j + 1), frame(b, j, j + 1)], bubble_run(b, i, j + 1));
    } else {
        lemma_bubble_shape(a, i, j + 1);
        lemma_shape_step(a, a, seq![frame(a, j, j + 1)], bubble_run(a, i, j + 1));
    }
}


proof fn lemma_insertion_shape(a: Seq<i32>, i: int, j: int)
    ensures
        run_shape(a, insertion_run(a, i, j)),
    decreases a.len() - i, j,
{
    if i < 0 || j < 0 || i >= a.len() || j > i {
    } else if j > 0 && a[j - 1] > a[j] {
        let b = swap_at(a, j - 1, j);
        lemma_swap_multiset(a, j - 1, j);
        lemma_insertion_shape(b, i, j - 1);
        lemma_shape_step(a, b, seq![frame(a, j - 1, j), frame(b, j - 1, j)], insertion_run(b, i, j - 1));
    } else {
        lemma_insertion_shape(a, i + 1, i + 1);
    }
}

proof fn lemma_selection_shape(a: Seq<i32>, i: int, j: int, m: int)
    requires
        0 <= i <= m < j,
    ensures
        run_shape(a, selection_run(a, i, j, m)),
    decreases a.len() - i, a.len() - j,
{
    if i < 0 || j < 0 || m < 0 || i + 1 >= a.len() || m >= a.len() {
    } else if j >= a.len() {
        if m != i {
            let b = swap_at(a, i, m);
            lemma_swap_multiset(a, i, m);
            lemma_selection_shape(b, i + 1, i + 2, i + 1);
            lemma_shape_step(a, b, seq![frame(b, i, m)], selection_run(b, i + 1, i + 2, i + 1));
        } else {
            lemma_selection_shape(a, i + 1, i + 2, i + 1);
        }
    } else {
        let next_m = if a[j] < a[m] { j } else { m };
        lemma_selection_shape(a, i, j + 1, next_m);
        lemma_shape_step(a, a, seq![frame(a, m, j)], selection_run(a, i, j + 1, next_m));
    }
}

proof fn lemma_sort_run_shape(base: Seq<i32>, kind: SortKind)
    ensures
        run_shape(base, spec_sort_run(base, kind)),
{
    match kind {
        SortKind::Bubble => lemma_bubble_shape(base, 0, 0),
        SortKind::Insertion => lemma_insertion_shape(base, 1, 1),
        SortKind::Selection => lemma_selection_shape(base, 0, 1, 0),
    }
}

/// Every frame that any of the algorithms records shows the same bars as
/// `base` (rearranged, none lost or added) and highlights two positions
/// `first < second` inside the bars.
pub proof fn lemma_frames_fit(base: Seq<i32>, kind: SortKind)
    ensures
        forall|k: int|
            0 <= k < spec_sort_frames(base, kind).len() ==> frame_fits(
                base,
                #[trigger] spec_sort_frames(base, kind)[k],
            ),
{
    lemma_sort_run_shape(base, kind);
}


/// Bubble sort's state invariant: the last `i` bars are in place and no
/// smaller than any bar before them, and bar `j` is the largest of the first
/// `j + 1`.
spec fn bubble_inv(a: Seq<i32>, i: int, j: int) -> bool {
    let n = a.len();
    &&& 0 <= i
    &&& 0 <= j
    &&& forall|p: int, q: int| 0 <= p && n - i <= p < q < n ==> a[p] <= a[q]
    &&& forall|p: int, q: int| 0 <= p < n - i <= q < n ==> a[p] <= a[q]
    &&& i + 1 < n ==> j <= n - 1 - i && forall|p: int| 0 <= p <= j ==> a[p] <= a[j]
}

proof fn lemma_bubble_sorted(a: Seq<i32>, i: int, j: int)
    requires
        bubble_inv(a, i, j),
    ensures
        is_sorted(bubble_run(a, i, j).1),
    decreases a.len() - i, a.len() - j,
{
    let n = a.len();
    if i < 0 || j < 0 || i + 1 >= n {
    } else if j + 1 + i >= n {
        assert(bubble_inv(a, i + 1, 0));
        lemma_bubble_sorted(a, i + 1, 0);
    } else if a[j] > a[j + 1] {
        let b = swap_at(a, j, j + 1);
        assert forall|p: int, q: int| 0 <= p < n - i <= q < n implies b[p] <= b[q] by {
            if p == j {
                assert(a[j + 1] <= a[q]);
            } else if p == j + 1 {
                assert(a[j] <= a[q]);
            }
        }
        assert forall|p: int| 0 <= p <= j + 1 implies #[trigger] b[p] <= b[j + 1] by {
            if p < j {
                assert(a[p] <= a[j]);
            }
        }
        assert(bubble_inv(b, i, j + 1));
        lemma_bubble_sorted(b, i, j + 1);
    } else {
        assert forall|p: int| 0 <= p <= j + 1 implies #[trigger] a[p] <= a[j + 1] by {
            if p <= j {
                assert(a[p] <= a[j]);
            }
        }
        assert(bubble_inv(a, i, j + 1));
        lemma_bubble_sorted(a, i, j + 1);
    }
}

/// Insertion sort's state invariant: the first `i + 1` bars are in order
/// apart from the one being inserted, which sits at `j` and is smaller than
/// every bar to its right among them.
spec fn insertion_inv(a: Seq<i32>, i: int, j: int) -> bool {
    let n = a.len();
    &&& 0 <= j <= i
    &&& i < n || j == i
    &&& forall|p: int, q: int|
        0 <= p < q <= i && q < n && p != j && q != j ==> a[p] <= a[q]
    &&& forall|q: int| j < q <= i && q < n ==> a[j] < a[q]
}

proof fn lemma_insertion_sorted(a: Seq<i32>, i: int, j: int)
    requires
        insertion_inv(a, i, j),
    ensures
        is_sorted(insertion_run(a, i, j).1),
    decreases a.len() - i, j,
{
    let n = a.len();
    if i < 0 || j < 0 || i >= n || j > i {
    } else if j > 0 && a[j - 1] > a[j] {
        let b = swap_at(a, j - 1, j);
        assert forall|p: int, q: int|
            0 <= p < q <= i && q < n && p != j - 1 && q != j - 1 implies b[p] <= b[q] by {
            if q == j {
                assert(a[p] <= a[j - 1]);
            } else if p == j {
                assert(a[j - 1] <= a[q]);
            }
        }
        assert forall|q: int| j - 1 < q <= i && q < n implies b[j - 1] < #[trigger] b[q] by {
            if q > j {
                assert(a[j] < a[q]);
            }
        }
        assert(insertion_inv(b, i, j - 1));
        lemma_insertion_sorted(b, i, j - 1);
    } else {
        assert forall|p: int, q: int| 0 <= p < q <= i implies a[p] <= a[q] by {
            if q == j && p < j - 1 {
                assert(a[p] <= a[j - 1]);
            } else if p == j {
                assert(a[j] < a[q]);
            }
        }
        assert(insertion_inv(a, i + 1, i + 1));
        lemma_insertion_sorted(a, i + 1, i + 1);
    }
}

/// Selection sort's state invariant: the first `i` bars are in place and no
/// larger than any bar after them, and `m` holds the smallest bar among
/// positions `i` up to `j`.
pub(crate) open spec fn selection_inv(a: Seq<i32>, i: int, j: int, m: int) -> bool {
    let n = a.len();
    &&& 0 <= i <= m < j
    &&& forall|p: int, q: int| 0 <= p < q < i && q < n ==> a[p] <= a[q]
    &&& forall|p: int, q: int| 0 <= p < i <= q < n ==> a[p] <= a[q]
    &&& i + 1 < n ==> m < n && forall|q: int| i <= q < j && q < n ==> a[m] <= a[q]
}

proof fn lemma_selection_sorted(a: Seq<i32>, i: int, j: int, m: int)
    requires
        selection_inv(a, i, j, m),
    ensures
        is_sorted(selection_run(a, i, j, m).1),
    decreases a.len() - i, a.len() - j,
{
    let n = a.len();
    if i < 0 || j < 0 || m < 0 || i + 1 >= n || m >= n {
    } else if j >= n {
        let b = swap_at(a, i, m);
        assert forall|p: int, q: int| 0 <= p < q < i + 1 && q < n implies b[p] <= b[q] by {
            if q == i {
                assert(a[p] <= a[m]);
            }
        }
        assert forall|p: int, q: int| 0 <= p < i + 1 <= q < n implies b[p] <= b[q] by {
            if p == i {
                if q == m {
                    assert(a[m] <= a[i]);
                } else {
                    assert(a[m] <= a[q]);
                }
            } else {
                if q == m {
                    assert(a[p] <= a[i]);
                } else {
                    assert(a[p] <= a[q]);
                }
            }
        }
        assert(selection_inv(b, i + 1, i + 2, i + 1));
        if m != i {
            lemma_selection_sorted(b, i + 1, i + 2, i + 1);
        } else {
            assert(b =~= a);
            lemma_selection_sorted(a, i + 1, i + 2, i + 1);
        }
    } else {
        let next_m = if a[j] < a[m] { j } else { m };
        assert forall|q: int| i <= q < j + 1 && q < n implies a[next_m] <= #[trigger] a[q] by {
            if q < j {
                assert(a[m] <= a[q]);
            }
        }
        assert(selection_inv(a, i, j + 1, next_m));
        lemma_selection_sorted(a, i, j + 1, next_m);
    }
}

/// The visualizer sorts: once every recorded frame has been played, the bars
/// on screen are the bars of `base` in ascending order, whichever algorithm
/// recorded the frames.
pub proof fn lemma_sort_frames_sort(base: Seq<i32>, kind: SortKind)
    ensures
        is_sorted(played_bars(base, spec_sort_frames(base, kind))),
        played_bars(base, spec_sort_frames(base, kind)).to_multiset() == base.to_multiset(),
        played_bars(base, spec_sort_frames(base, kind)) == spec_sort_run(base, kind).1,
{
    lemma_sort_run_shape(base, kind);
    match kind {
        SortKind::Bubble => {
            assert(bubble_inv(base, 0, 0));
            lemma_bubble_sorted(base, 0, 0);
        },
        SortKind::Insertion => {
            assert(insertion_inv(base, 1, 1));
            lemma_insertion_sorted(base, 1, 1);
        },
        SortKind::Selection => {
            assert(selection_inv(base, 0, 1, 0));
            lemma_selection_sorted(base, 0, 1, 0);
        },
    }
}

} // verus!
