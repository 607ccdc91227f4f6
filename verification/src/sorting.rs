//! The frame recorder of the sorting visualizer: it runs bubble, insertion
//! or selection sort on a copy of the bars and records a snapshot of the
//! bars, with the two highlighted positions, at every comparison and swap
//! that the visualizer animates.

use vstd::prelude::*;

verus! {

/// The sorting algorithms the visualizer offers.
#[derive(Clone, Copy, PartialEq, Eq, Structural, Debug)]
pub enum SortKind {
    Bubble,
    Insertion,
    Selection,
}

/// The kind that a value of the algorithm selector names: `"insertion"`,
/// `"selection"`, and bubble sort for anything else.
pub open spec fn spec_kind_from_name(name: Seq<char>) -> SortKind {
    if name == "insertion"@ {
        SortKind::Insertion
    } else if name == "selection"@ {
        SortKind::Selection
    } else {
        SortKind::Bubble
    }
}

impl SortKind {
    /// Reads the value of the algorithm selector.
    pub fn from_name(name: &str) -> (kind: SortKind)
        ensures
            kind == spec_kind_from_name(name@),
    {
        let owned = name.to_owned();
        if owned == "insertion".to_owned() {
            SortKind::Insertion
        } else if owned == "selection".to_owned() {
            SortKind::Selection
        } else {
            SortKind::Bubble
        }
    }
}

/// A recorded frame as values: the bars and the two highlighted positions,
/// stored as `i32`.
pub type FrameView = (Seq<i32>, i32, i32);

/// The frame of bars `a` with positions `x` and `y` highlighted.
pub open spec fn frame(a: Seq<i32>, x: int, y: int) -> FrameView {
    (a, x as i32, y as i32)
}

/// The recorded frames as values.
pub open spec fn frames_view(frames: Seq<(Vec<i32>, i32, i32)>) -> Seq<FrameView> {
    frames.map_values(|f: (Vec<i32>, i32, i32)| (f.0@, f.1, f.2))
}

/// `a` with the values at positions `x` and `y` exchanged.
pub open spec fn swap_at(a: Seq<i32>, x: int, y: int) -> Seq<i32> {
    a.update(x, a[y]).update(y, a[x])
}

/// Bubble sort from the state where the outer pass is `i` and the inner
/// comparison is at `j`: the frames it records from there and the bars it
/// ends with. Each comparison of `j` and `j + 1` records the bars, and a swap
/// records them again after the swap.
pub open spec fn bubble_run(a: Seq<i32>, i: int, j: int) -> (Seq<FrameView>, Seq<i32>)
    decreases a.len() - i, a.len() - j,
{
    if i < 0 || j < 0 || i + 1 >= a.len() {
        (Seq::empty(), a)
    } else if j + 1 + i >= a.len() {
        bubble_run(a, i + 1, 0)
    } else if a[j] > a[j + 1] {
        let b = swap_at(a, j, j + 1);
        let rest = bubble_run(b, i, j + 1);
        (seq![frame(a, j, j + 1), frame(b, j, j + 1)] + rest.0, rest.1)
    } else {
        let rest = bubble_run(a, i, j + 1);
        (seq![frame(a, j, j + 1)] + rest.0, rest.1)
    }
}

/// Insertion sort from the state where element `i` is being inserted and
/// currently sits at `j`: each swap with its left neighbour records the bars
/// before and after the swap.
pub open spec fn insertion_run(a: Seq<i32>, i: int, j: int) -> (Seq<FrameView>, Seq<i32>)
    decreases a.len() - i, j,
{
    if i < 0 || j < 0 || i >= a.len() || j > i {
        (Seq::empty(), a)
    } else if j > 0 && a[j - 1] > a[j] {
        let b = swap_at(a, j - 1, j);
        let rest = insertion_run(b, i, j - 1);
        (seq![frame(a, j - 1, j), frame(b, j - 1, j)] + rest.0, rest.1)
    } else {
        insertion_run(a, i + 1, i + 1)
    }
}

/// Selection sort from the state where position `i` is being filled, `j` is
/// the next candidate and `m` the smallest seen so far: each candidate records
/// the bars with `m` and `j` highlighted, and a swap that fills position `i`
/// records the bars after it.
pub open spec fn selection_run(a: Seq<i32>, i: int, j: int, m: int) -> (Seq<FrameView>, Seq<i32>)
    decreases a.len() - i, a.len() - j,
{
    if i < 0 || j < 0 || m < 0 || i + 1 >= a.len() || m >= a.len() {
        (Seq::empty(), a)
    } else if j >= a.len() {
        if m != i {
            let b = swap_at(a, i, m);
            let rest = selection_run(b, i + 1, i + 2, i + 1);
            (seq![frame(b, i, m)] + rest.0, rest.1)
        } else {
            selection_run(a, i + 1, i + 2, i + 1)
        }
    } else {
        let next_m = if a[j] < a[m] { j } else { m };
        let rest = selection_run(a, i, j + 1, next_m);
        (seq![frame(a, m, j)] + rest.0, rest.1)
    }
}

/// The whole run of `kind` on `base`: the frames and the final bars.
pub open spec fn spec_sort_run(base: Seq<i32>, kind: SortKind) -> (Seq<FrameView>, Seq<i32>) {
    match kind {
        SortKind::Bubble => bubble_run(base, 0, 0),
        SortKind::Insertion => insertion_run(base, 1, 1),
        SortKind::Selection => selection_run(base, 0, 1, 0),
    }
}

/// The frames that `kind` records on `base`.
pub open spec fn spec_sort_frames(base: Seq<i32>, kind: SortKind) -> Seq<FrameView> {
    spec_sort_run(base, kind).0
}

/// A copy of the bars.
pub(crate) fn copy_bars(a: &Vec<i32>) -> (r: Vec<i32>)
    ensures
        r@ == a@,
{
    let r = a.clone();
    assert(r@ =~= a@);
    r
}

/// Records the bars `a` with positions `x` and `y` highlighted.
fn snap(a: &Vec<i32>, x: usize, y: usize, f: &mut Vec<(Vec<i32>, i32, i32)>)
    ensures
        frames_view(final(f)@) == frames_view(old(f)@).push(frame(a@, x as int, y as int)),
{
    let bars = copy_bars(a);
    f.push((bars, x as i32, y as i32));
    assert(frames_view(f@) =~= frames_view(old(f)@).push(frame(a@, x as int, y as int)));
}

/// Exchanges the bars at `x` and `y`.
fn swap_bars(a: &mut Vec<i32>, x: usize, y: usize)
    requires
        x < old(a)@.len(),
        y < old(a)@.len(),
    ensures
        final(a)@ == swap_at(old(a)@, x as int, y as int),
{
    let vx = a[x];
    let vy = a[y];
    a.set(x, vy);
    a.set(y, vx);
}

fn bubble_frames(base: &[i32]) -> (f: Vec<(Vec<i32>, i32, i32)>)
    ensures
        frames_view(f@) == bubble_run(base@, 0, 0).0,
{
    let mut a = vstd::slice::slice_to_vec(base);
    let mut f: Vec<(Vec<i32>, i32, i32)> = Vec::new();
    let n = a.len();
    let ghost total = bubble_run(base@, 0, 0);
    let passes = n.saturating_sub(1);
    let mut i: usize = 0;
    while i < passes
        invariant
            n == a@.len(),
            passes == if n > 0 { n - 1 } else { 0 },
            i <= n,
            frames_view(f@) + bubble_run(a@, i as int, 0).0 == total.0,
        decreases n - i,
    {
        let mut j: usize = 0;
        while j + 1 + i < n
            invariant
                n == a@.len(),
                i + 1 < n,
                j + 1 + i <= n,
                frames_view(f@) + bubble_run(a@, i as int, j as int).0 == total.0,
            decreases n - j,
        {
            let ghost before = frames_view(f@);
            let ghost a0 = a@;
            snap(&a, j, j + 1, &mut f);
            if a[j] > a[j + 1] {
                swap_bars(&mut a, j, j + 1);
                snap(&a, j, j + 1, &mut f);
                assert(frames_view(f@) + bubble_run(a@, i as int, j + 1).0 =~= before
                    + bubble_run(a0, i as int, j as int).0);
            } else {
                assert(frames_view(f@) + bubble_run(a@, i as int, j + 1).0 =~= before
                    + bubble_run(a0, i as int, j as int).0);
            }
            j = j + 1;
        }
        i = i + 1;
    }
    assert(frames_view(f@) =~= total.0);
    f
}


fn insertion_frames(base: &[i32]) -> (f: Vec<(Vec<i32>, i32, i32)>)
    ensures
        frames_view(f@) == insertion_run(base@, 1, 1).0,
{
    let mut a = vstd::slice::slice_to_vec(base);
    let mut f: Vec<(Vec<i32>, i32, i32)> = Vec::new();
    let n = a.len();
    let ghost total = insertion_run(base@, 1, 1);
    let mut i: usize = 1;
    while i < n
        invariant
            n == a@.len(),
            1 <= i,
            frames_view(f@) + insertion_run(a@, i as int, i as int).0 == total.0,
        decreases n - i,
    {
        let mut j: usize = i;
        while j > 0 && a[j - 1] > a[j]
            invariant
                n == a@.len(),
                j <= i < n,
                frames_view(f@) + insertion_run(a@, i as int, j as int).0 == total.0,
            decreases j,
        {
            let ghost before = frames_view(f@);
            let ghost a0 = a@;
            snap(&a, j - 1, j, &mut f);
            swap_bars(&mut a, j - 1, j);
            snap(&a, j - 1, j, &mut f);
            assert(frames_view(f@) + insertion_run(a@, i as int, j - 1).0 =~= before
                + insertion_run(a0, i as int, j as int).0);
            j = j - 1;
        }
        i = i + 1;
    }
    assert(frames_view(f@) =~= total.0);
    f
}

fn selection_frames(base: &[i32]) -> (f: Vec<(Vec<i32>, i32, i32)>)
    ensures
        frames_view(f@) == selection_run(base@, 0, 1, 0).0,
{
    let mut a = vstd::slice::slice_to_vec(base);
    let mut f: Vec<(Vec<i32>, i32, i32)> = Vec::new();
    let n = a.len();
    let ghost total = selection_run(base@, 0, 1, 0);
    let passes = n.saturating_sub(1);
    let mut i: usize = 0;
    while i < passes
        invariant
            n == a@.len(),
            passes == if n > 0 { n - 1 } else { 0 },
            i <= n,
            frames_view(f@) + selection_run(a@, i as int, i + 1, i as int).0 == total.0,
        decreases n - i,
    {
        let mut m: usize = i;
        let mut j: usize = i + 1;
        while j < n
            invariant
                n == a@.len(),
                i + 1 < n,
                i <= m < j <= n,
                frames_view(f@) + selection_run(a@, i as int, j as int, m as int).0 == total.0,
            decreases n - j,
        {
            let ghost before = frames_view(f@);
            let ghost m0 = m;
            snap(&a, m, j, &mut f);
            if a[j] < a[m] {
                m = j;
            }
            assert(frames_view(f@) + selection_run(a@, i as int, j + 1, m as int).0 =~= before
                + selection_run(a@, i as int, j as int, m0 as int).0);
            j = j + 1;
        }
        let ghost before = frames_view(f@);
        let ghost a0 = a@;
        if m != i {
            swap_bars(&mut a, i, m);
            snap(&a, i, m, &mut f);
            assert(frames_view(f@) + selection_run(a@, i + 1, i + 2, i + 1).0 =~= before
                + selection_run(a0, i as int, j as int, m as int).0);
        }
        i = i + 1;
    }
    assert(frames_view(f@) =~= total.0);
    f
}

/// Records the frames that sorting `base` with the algorithm named `kind`
/// shows: bubble sort records every comparison and every swap, insertion
/// sort every swap (before and after it), selection sort every comparison
/// and the swap that ends each pass.
pub fn sort_frames(base: &[i32], kind: &str) -> (f: Vec<(Vec<i32>, i32, i32)>)
    ensures
        frames_view(f@) == spec_sort_frames(base@, spec_kind_from_name(kind@)),
{
    match SortKind::from_name(kind) {
        SortKind::Insertion => insertion_frames(base),
        SortKind::Selection => selection_frames(base),
        SortKind::Bubble => bubble_frames(base),
    }
}


/// Any algorithm name other than `"insertion"` and `"selection"` (an unknown
/// one, the empty name, or one in another case) records bubble sort.
pub proof fn lemma_unknown_kind_is_bubble(base: Seq<i32>, name: Seq<char>)
    requires
        name != "insertion"@,
        name != "selection"@,
    ensures
        spec_sort_frames(base, spec_kind_from_name(name)) == spec_sort_frames(base, SortKind::Bubble),
{
}

} // verus!
