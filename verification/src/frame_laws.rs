//! How the recorded frames follow one another: each frame shows the bars of
//! the frame before it (the input for the first), either unchanged or with
//! its own highlighted pair exchanged; bubble and insertion sort only ever
//! highlight neighbours; insertion sort records each swap as a pair of
//! frames; and selection sort highlights the smallest bar of its pass so far.

use vstd::prelude::*;
use crate::sort_laws::selection_inv;
use crate::sorting::{
    bubble_run, frame, insertion_run, selection_run, spec_sort_frames, swap_at, FrameView, SortKind,
};

verus! {

/// Frame `g` follows bars `prev`: it shows them unchanged, or with the bars
/// at its two highlighted positions exchanged.
pub open spec fn continues_from(prev: Seq<i32>, g: FrameView) -> bool {
    g.0 == prev || g.0 == swap_at(prev, g.1 as int, g.2 as int)
}

/// Every frame follows the bars before it: `base` for the first frame, the
/// previous frame's bars for the others.
pub open spec fn frames_continue(base: Seq<i32>, frames: Seq<FrameView>) -> bool {
    forall|k: int|
        0 <= k < frames.len() ==> continues_from(
            if k == 0 {
                base
            } else {
                frames[k - 1].0
            },
            #[trigger] frames[k],
        )
}

/// Every frame highlights two neighbouring positions.
pub open spec fn frames_adjacent(frames: Seq<FrameView>) -> bool {
    forall|k: int| 0 <= k < frames.len() ==> #[trigger] frames[k].2 as int == frames[k].1 as int + 1
}

proof fn lemma_continue_step(a: Seq<i32>, pre: Seq<FrameView>, rest: Seq<FrameView>)
    requires
        pre.len() > 0,
        frames_continue(a, pre),
        frames_continue(pre.last().0, rest),
    ensures
        frames_continue(a, pre + rest),
{
    let all = pre + rest;
    assert forall|k: int| 0 <= k < all.len() implies continues_from(
        if k == 0 {
            a
        } else {
            all[k - 1].0
        },
        #[trigger] all[k],
    ) by {
        if k < pre.len() {
            assert(all[k] == pre[k]);
            if k > 0 {
                assert(all[k - 1] == pre[k - 1]);
            }
        } else {
            let r = k - pre.len();
            assert(all[k] == rest[r]);
            if r == 0 {
                assert(all[k - 1] == pre.last());
            } else {
                assert(all[k - 1] == rest[r - 1]);
            }
            assert(continues_from(
                if r == 0 {
                    pre.last().0
                } else {
                    rest[r - 1].0
                },
                rest[r],
            ));
        }
    }
}

proof fn lemma_adjacent_step(pre: Seq<FrameView>, rest: Seq<FrameView>)
    requires
        frames_adjacent(pre),
        frames_adjacent(rest),
    ensures
        frames_adjacent(pre + rest),
{
    let all = pre + rest;
    assert forall|k: int| 0 <= k < all.len() implies #[trigger] all[k].2 as int == all[k].1 as int + 1 by {
        if k < pre.len() {
            assert(all[k] == pre[k]);
        } else {
            assert(all[k] == rest[k - pre.len()]);
        }
    }
}

proof fn lemma_bubble_continue(a: Seq<i32>, i: int, j: int)
    requires
        a.len() <= i32::MAX,
    ensures
        frames_continue(a, bubble_run(a, i, j).0),
        frames_adjacent(bubble_run(a, i, j).0),
    decreases a.len() - i, a.len() - j,
{
    if i < 0 || j < 0 || i + 1 >= a.len() {
    } else if j + 1 + i >= a.len() {
        lemma_bubble_continue(a, i + 1, 0);
    } else if a[j] > a[j + 1] {
        let b = swap_at(a, j, j + 1);
        let pre = seq![frame(a, j, j + 1), frame(b, j, j + 1)];
        lemma_bubble_continue(b, i, j + 1);
        assert(frames_continue(a, pre));
        lemma_continue_step(a, pre, bubble_run(b, i, j + 1).0);
        lemma_adjacent_step(pre, bubble_run(b, i, j + 1).0);
    } else {
        let pre = seq![frame(a, j, j + 1)];
        lemma_bubble_continue(a, i, j + 1);
        assert(frames_continue(a, pre));
        lemma_continue_step(a, pre, bubble_run(a, i, j + 1).0);
        lemma_adjacent_step(pre, bubble_run(a, i, j + 1).0);
    }
}

proof fn lemma_insertion_continue(a: Seq<i32>, i: int, j: int)
    requires
        a.len() <= i32::MAX,
    ensures
        frames_continue(a, insertion_run(a, i, j).0),
        frames_adjacent(insertion_run(a, i, j).0),
    decreases a.len() - i, j,
{
    if i < 0 || j < 0 || i >= a.len() || j > i {
    } else if j > 0 && a[j - 1] > a[j] {
        let b = swap_at(a, j - 1, j);
        let pre = seq![frame(a, j - 1, j), frame(b, j - 1, j)];
        lemma_insertion_continue(b, i, j - 1);
        assert(frames_continue(a, pre));
        lemma_continue_step(a, pre, insertion_run(b, i, j - 1).0);
        lemma_adjacent_step(pre, insertion_run(b, i, j - 1).0);
    } else {
        lemma_insertion_continue(a, i + 1, i + 1);
    }
}

proof fn lemma_selection_continue(a: Seq<i32>, i: int, j: int, m: int)
    requires
        a.len() <= i32::MAX,
    ensures
        frames_continue(a, selection_run(a, i, j, m).0),
    decreases a.len() - i, a.len() - j,
{
    if i < 0 || j < 0 || m < 0 || i + 1 >= a.len() || m >= a.len() {
    } else if j >= a.len() {
        if m != i {
            let b = swap_at(a, i, m);
            let pre = seq![frame(b, i, m)];
            lemma_selection_continue(b, i + 1, i + 2, i + 1);
            assert(frames_continue(a, pre));
            lemma_continue_step(a, pre, selection_run(b, i + 1, i + 2, i + 1).0);
        } else {
            lemma_selection_continue(a, i + 1, i + 2, i + 1);
        }
    } else {
        let next_m = if a[j] < a[m] { j } else { m };
        let pre = seq![frame(a, m, j)];
        lemma_selection_continue(a, i, j + 1, next_m);
        assert(frames_continue(a, pre));
        lemma_continue_step(a, pre, selection_run(a, i, j + 1, next_m).0);
    }
}

/// The animation is continuous: the first frame shows the input bars, and
/// every later frame shows the bars of the frame before it, unchanged or
/// with its own highlighted pair exchanged. Bubble and insertion sort
/// moreover only ever highlight two neighbouring bars.
pub proof fn lemma_frames_continue(base: Seq<i32>, kind: SortKind)
    requires
        base.len() <= i32::MAX,
    ensures
        frames_continue(base, spec_sort_frames(base, kind)),
        kind != SortKind::Selection ==> frames_adjacent(spec_sort_frames(base, kind)),
{
    match kind {
        SortKind::Bubble => lemma_bubble_continue(base, 0, 0),
        SortKind::Insertion => lemma_insertion_continue(base, 1, 1),
        SortKind::Selection => lemma_selection_continue(base, 0, 1, 0),
    }
}


/// Insertion sort's frames come in pairs, one per swap: the first shows two
/// neighbouring bars out of order (the left one larger), the second the same
/// positions highlighted with those two bars exchanged.
pub open spec fn swap_pairs(frames: Seq<FrameView>) -> bool {
    &&& frames.len() % 2 == 0
    &&& forall|e: int|
        0 <= e < frames.len() && e % 2 == 0 ==> {
            let f = #[trigger] frames[e];
            let g = frames[e + 1];
            &&& f.2 as int == f.1 as int + 1
            &&& 0 <= f.1 as int
            &&& (f.2 as int) < f.0.len()
            &&& f.0[f.1 as int] > f.0[f.2 as int]
            &&& g.1 == f.1
            &&& g.2 == f.2
            &&& g.0 == swap_at(f.0, f.1 as int, f.2 as int)
        }
}

proof fn lemma_insertion_pairs(a: Seq<i32>, i: int, j: int)
    requires
        a.len() <= i32::MAX,
    ensures
        swap_pairs(insertion_run(a, i, j).0),
    decreases a.len() - i, j,
{
    if i < 0 || j < 0 || i >= a.len() || j > i {
    } else if j > 0 && a[j - 1] > a[j] {
        let b = swap_at(a, j - 1, j);
        let pre = seq![frame(a, j - 1, j), frame(b, j - 1, j)];
        let rest = insertion_run(b, i, j - 1).0;
        lemma_insertion_pairs(b, i, j - 1);
        let all = pre + rest;
        assert forall|e: int| 0 <= e < all.len() && e % 2 == 0 implies {
            let f = #[trigger] all[e];
            let g = all[e + 1];
            &&& f.2 as int == f.1 as int + 1
            &&& 0 <= f.1 as int
            &&& (f.2 as int) < f.0.len()
            &&& f.0[f.1 as int] > f.0[f.2 as int]
            &&& g.1 == f.1
            &&& g.2 == f.2
            &&& g.0 == swap_at(f.0, f.1 as int, f.2 as int)
        } by {
            if e >= 2 {
                assert(all[e] == rest[e - 2]);
                assert(all[e + 1] == rest[e - 1]);
                assert((e - 2) % 2 == 0);
                let f = rest[e - 2];
                assert(f == rest[e - 2]);
            }
        }
    } else {
        lemma_insertion_pairs(a, i + 1, i + 1);
    }
}

/// Insertion sort records nothing but swaps of neighbours that were out of
/// order, each as a pair of frames: before and after the exchange, with the
/// same two positions highlighted.
pub proof fn lemma_insertion_frames_are_swaps(base: Seq<i32>)
    requires
        base.len() <= i32::MAX,
    ensures
        swap_pairs(spec_sort_frames(base, SortKind::Insertion)),
{
    lemma_insertion_pairs(base, 1, 1);
}

/// In bars `b`, position `x` holds the first smallest bar of a selection
/// pass that started at `s` and has looked at the positions before `y`: the
/// bars before `s` are in place (none larger than any bar from `s` on), and
/// the bar at `x` is no larger than any from `s` up to `y` and smaller than
/// every one from `s` up to `x`.
pub open spec fn pass_minimum_from(b: Seq<i32>, x: int, y: int, s: int) -> bool {
    &&& 0 <= s <= x
    &&& forall|q: int| s <= q < y ==> b[x] <= #[trigger] b[q]
    &&& forall|q: int| s <= q < x ==> b[x] < #[trigger] b[q]
    &&& forall|p: int, q: int| 0 <= p < s <= q < b.len() ==> b[p] <= b[q]
}

/// Frame `f` highlights, at its first position, the first smallest bar of a
/// selection pass so far, against its second position.
pub open spec fn highlights_pass_minimum(f: FrameView) -> bool {
    &&& 0 <= f.1 as int
    &&& (f.1 as int) < (f.2 as int)
    &&& (f.2 as int) < f.0.len()
    &&& exists|s: int| #[trigger] pass_minimum_from(f.0, f.1 as int, f.2 as int, s)
}

proof fn lemma_selection_minimum(a: Seq<i32>, i: int, j: int, m: int)
    requires
        a.len() <= i32::MAX,
        selection_inv(a, i, j, m),
        forall|q: int| i <= q < m ==> a[m] < #[trigger] a[q],
    ensures
        forall|k: int|
            0 <= k < selection_run(a, i, j, m).0.len() ==> highlights_pass_minimum(
                #[trigger] selection_run(a, i, j, m).0[k],
            ),
    decreases a.len() - i, a.len() - j,
{
    let n = a.len();
    if i < 0 || j < 0 || m < 0 || i + 1 >= n || m >= n {
    } else if j >= n {
        let b = if m != i { swap_at(a, i, m) } else { a };
        assert forall|p: int, q: int| 0 <= p < q < i + 1 && q < n implies b[p] <= b[q] by {
            if q == i {
                assert(a[p] <= a[m]);
            }
        }
        assert forall|p: int, q: int| 0 <= p < i + 1 <= q < n implies b[p] <= b[q] by {
            if p == i {
                if q == m {
                    assert(a[m] <= a[i]);
                } else {
                    assert(a[m] <= a[q]);
                }
            } else {
                if q == m {
                    assert(a[p] <= a[i]);
                } else {
                    assert(a[p] <= a[q]);
                }
            }
        }
        assert(selection_inv(b, i + 1, i + 2, i + 1));
        lemma_selection_minimum(b, i + 1, i + 2, i + 1);
        if m != i {
            let f = frame(b, i, m);
            assert(highlights_pass_minimum(f)) by {
                assert forall|q: int| i <= q < m implies b[i] <= #[trigger] b[q] by {
                    if q > i {
                        assert(a[m] <= a[q]);
                    }
                }
                assert forall|p: int, q: int| 0 <= p < i <= q < b.len() implies b[p] <= b[q] by {
                    if q == m {
                        assert(a[p] <= a[i]);
                    } else if q == i {
                        assert(a[p] <= a[m]);
                    } else {
                        assert(a[p] <= a[q]);
                    }
                }
                assert(forall|q: int| i <= q < i ==> b[i] < #[trigger] b[q]);
                assert(pass_minimum_from(b, i, m, i));
            }
            let rest = selection_run(b, i + 1, i + 2, i + 1).0;
            let all = seq![f] + rest;
            assert forall|k: int| 0 <= k < all.len() implies highlights_pass_minimum(#[trigger] all[k]) by {
                if k > 0 {
                    assert(all[k] == rest[k - 1]);
                }
            }
            assert(selection_run(a, i, j, m).0 == all);
        } else {
            assert(b == a);
            assert(selection_run(a, i, j, m).0 == selection_run(a, i + 1, i + 2, i + 1).0);
        }
    } else {
        let next_m = if a[j] < a[m] { j } else { m };
        assert forall|q: int| i <= q < j + 1 && q < n implies a[next_m] <= #[trigger] a[q] by {
            if q < j {
                assert(a[m] <= a[q]);
            }
        }
        assert forall|q: int| i <= q < next_m implies a[next_m] < #[trigger] a[q] by {
            if next_m == j {
                assert(a[m] <= a[q]);
            }
        }
        assert(selection_inv(a, i, j + 1, next_m));
        lemma_selection_minimum(a, i, j + 1, next_m);
        let f = frame(a, m, j);
        assert(highlights_pass_minimum(f)) by {
            assert(forall|q: int| i <= q < j ==> a[m] <= #[trigger] a[q]);
            assert(pass_minimum_from(a, m, j, i));
        }
        let rest = selection_run(a, i, j + 1, next_m).0;
        let all = seq![f] + rest;
        assert forall|k: int| 0 <= k < all.len() implies highlights_pass_minimum(#[trigger] all[k]) by {
            if k > 0 {
                assert(all[k] == rest[k - 1]);
            }
        }
        assert(selection_run(a, i, j, m).0 == all);
    }
}

/// Every frame selection sort records highlights the first smallest bar of
/// its pass so far at its first position: each comparison shows the current
/// minimum against the candidate, and each swap the filled position against
/// where its bar came from.
pub proof fn lemma_selection_highlights_minimum(base: Seq<i32>)
    requires
        base.len() <= i32::MAX,
    ensures
        forall|k: int|
            0 <= k < spec_sort_frames(base, SortKind::Selection).len() ==> highlights_pass_minimum(
                #[trigger] spec_sort_frames(base, SortKind::Selection)[k],
            ),
{
    assert(selection_inv(base, 0, 1, 0));
    lemma_selection_minimum(base, 0, 1, 0);
}

} // verus!
