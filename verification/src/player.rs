//! The state of the sorting visualizer and the decisions it takes on each
//! button press and animation frame.

use vstd::prelude::*;
use crate::sort_laws::{
    frame_fits, is_sorted, lemma_frames_fit, lemma_sort_frames_sort, lemma_swap_multiset, played_bars,
};
use vstd::relations::{sorted_by, total_ordering};
use vstd::seq_lib::lemma_sorted_unique;
use crate::sorting::{
    frames_view, sort_frames, spec_kind_from_name, spec_sort_frames, swap_at, FrameView, SortKind,
};

verus! {

/// The number of bars the visualizer sorts.
pub const SN: i32 = 44;

/// The bars `1, 2, ..., n`.
pub open spec fn ascending_bars(n: int) -> Seq<i32> {
    Seq::new(n as nat, |k: int| (k + 1) as i32)
}

/// Fisher-Yates from step `k` on: step `k` exchanges the bar at
/// `a.len() - 1 - k` with the bar at `picks[k]`.
pub open spec fn shuffle_steps(a: Seq<i32>, picks: Seq<usize>, k: int) -> Seq<i32>
    decreases picks.len() - k,
{
    if k < 0 || k >= picks.len() {
        a
    } else {
        shuffle_steps(swap_at(a, a.len() - 1 - k, picks[k] as int), picks, k + 1)
    }
}

/// The bars after shuffling `1..=SN` with the random positions `picks`.
pub open spec fn spec_shuffled(picks: Seq<usize>) -> Seq<i32> {
    shuffle_steps(ascending_bars(SN as int), picks, 0)
}

/// The random positions of a shuffle are well formed: one per step, and step
/// `k` (which places position `SN - 1 - k`) picks a position no larger.
pub open spec fn valid_picks(picks: Seq<usize>) -> bool {
    &&& picks.len() == SN - 1
    &&& forall|k: int| 0 <= k < picks.len() ==> #[trigger] picks[k] <= SN - 1 - k
}

/// The sorting visualizer: the bars on screen, the highlighted pair
/// (`-1` for none), the recorded frames and how far they have been played,
/// whether they are playing, and whether comparisons sound.
pub struct Sort {
    pub arr: Vec<i32>,
    pub hi: (i32, i32),
    pub frames: Vec<(Vec<i32>, i32, i32)>,
    pub idx: usize,
    pub playing: bool,
    pub sound: bool,
}

/// How many frames one animation frame plays when `total` are recorded.
pub open spec fn frames_per_tick(total: int) -> int {
    if total / 260 > 1 { total / 260 } else { 1 }
}

/// The tone of a played frame: the value of its first highlighted bar, or
/// `1` when that position is outside the bars.
pub open spec fn frame_tone(f: FrameView) -> i32 {
    if 0 <= f.1 < f.0.len() { f.0[f.1 as int] } else { 1 }
}

impl Sort {
    /// The visualizer before its first shuffle: no bars, nothing highlighted
    /// or recorded, not playing, sound on.
    pub fn new() -> (s: Sort)
        ensures
            s.arr@ == Seq::<i32>::empty(),
            s.hi == (-1i32, -1i32),
            s.frames@.len() == 0,
            s.idx == 0,
            !s.playing,
            s.sound,
    {
        Sort { arr: Vec::new(), hi: (-1, -1), frames: Vec::new(), idx: 0, playing: false, sound: true }
    }
}

/// Lays out the bars `1..=SN` and shuffles them with the random positions
/// `picks`, then clears the highlight and the recording and stops playing.
pub fn sort_shuffle(st: &mut Sort, picks: &[usize])
    requires
        valid_picks(picks@),
    ensures
        final(st)@ == spec_shuffle(old(st)@, picks@),
{
    let mut arr: Vec<i32> = Vec::new();
    let mut v: i32 = 1;
    while v <= SN
        invariant
            1 <= v <= SN + 1,
            arr@ =~= ascending_bars(v - 1),
        decreases SN + 1 - v,
    {
        arr.push(v);
        v = v + 1;
    }
    let n: usize = arr.len();
    let mut k: usize = 0;
    while k + 1 < n
        invariant
            n == SN,
            arr@.len() == n,
            k + 1 <= n,
            valid_picks(picks@),
            shuffle_steps(arr@, picks@, k as int) == spec_shuffled(picks@),
        decreases n - k,
    {
        let i = n - 1 - k;
        let j = picks[k];
        let ghost before = arr@;
        let vi = arr[i];
        let vj = arr[j];
        arr.set(i, vj);
        arr.set(j, vi);
        assert(arr@ == swap_at(before, before.len() - 1 - k, picks@[k as int] as int));
        k = k + 1;
    }
    st.arr = arr;
    st.hi = (-1, -1);
    st.playing = false;
    st.frames = Vec::new();
    st.idx = 0;
    assert(frames_view(st.frames@) =~= Seq::<FrameView>::empty());
}


proof fn lemma_shuffle_steps_permute(a: Seq<i32>, picks: Seq<usize>, k: int)
    requires
        a.len() == SN,
        valid_picks(picks),
        0 <= k,
    ensures
        shuffle_steps(a, picks, k).len() == SN,
        shuffle_steps(a, picks, k).to_multiset() == a.to_multiset(),
    decreases picks.len() - k,
{
    if k < picks.len() {
        let b = swap_at(a, a.len() - 1 - k, picks[k] as int);
        lemma_swap_multiset(a, a.len() - 1 - k, picks[k] as int);
        lemma_shuffle_steps_permute(b, picks, k + 1);
    }
}

/// A shuffle only rearranges: whatever positions were picked, the shuffled
/// bars are `1..=SN`, each exactly once.
pub proof fn lemma_shuffle_permutes(picks: Seq<usize>)
    requires
        valid_picks(picks),
    ensures
        spec_shuffled(picks).len() == SN,
        spec_shuffled(picks).to_multiset() == ascending_bars(SN as int).to_multiset(),
{
    lemma_shuffle_steps_permute(ascending_bars(SN as int), picks, 0);
}

/// The state after a shuffle with the random positions `picks`: the
/// shuffled bars, nothing highlighted or recorded, not playing.
pub open spec fn spec_shuffle(s: SortModel, picks: Seq<usize>) -> SortModel {
    SortModel {
        arr: spec_shuffled(picks),
        hi: (-1i32, -1i32),
        frames: Seq::empty(),
        idx: 0,
        playing: false,
        sound: s.sound,
    }
}

/// The Sort button, as values: unless already playing, records the frames of
/// the algorithm named `name` on the bars on screen and plays them from the
/// first.
pub open spec fn spec_start(s: SortModel, name: Seq<char>) -> SortModel {
    if s.playing {
        s
    } else {
        SortModel {
            arr: s.arr,
            hi: s.hi,
            frames: spec_sort_frames(s.arr, spec_kind_from_name(name)),
            idx: 0,
            playing: true,
            sound: s.sound,
        }
    }
}

/// The Shuffle button, as values: a shuffle unless playing.
pub open spec fn spec_request_shuffle(s: SortModel, picks: Seq<usize>) -> SortModel {
    if s.playing {
        s
    } else {
        spec_shuffle(s, picks)
    }
}

/// The Sound button, as values.
pub open spec fn spec_toggle_sound(s: SortModel) -> SortModel {
    SortModel { sound: !s.sound, ..s }
}

impl Sort {
    /// The Sort button: unless the bars are already playing, records the
    /// frames of the algorithm named `kind` on the bars on screen and starts
    /// playing them from the first. Returns whether it started.
    pub fn start(&mut self, kind: &str) -> (started: bool)
        ensures
            started == !old(self).playing,
            final(self)@ == spec_start(old(self)@, kind@),
    {
        if self.playing {
            return false;
        }
        self.frames = sort_frames(self.arr.as_slice(), kind);
        self.idx = 0;
        self.playing = true;
        true
    }

    /// The Shuffle button: reshuffles with the random positions `picks`
    /// unless the bars are playing. Returns whether it shuffled.
    pub fn request_shuffle(&mut self, picks: &[usize]) -> (shuffled: bool)
        requires
            valid_picks(picks@),
        ensures
            shuffled == !old(self).playing,
            final(self)@ == spec_request_shuffle(old(self)@, picks@),
    {
        if self.playing {
            return false;
        }
        sort_shuffle(self, picks);
        true
    }

    /// The Sound button: turns the comparison tones on or off and returns
    /// the new setting.
    pub fn toggle_sound(&mut self) -> (sound: bool)
        ensures
            sound == !old(self).sound,
            final(self)@ == spec_toggle_sound(old(self)@),
    {
        self.sound = !self.sound;
        self.sound
    }

    /// The Sound button's label for the setting `sound`.
    pub fn sound_label(sound: bool) -> (label: &'static str)
        ensures
            sound ==> label@ == "Sound: on"@,
            !sound ==> label@ == "Sound: off"@,
    {
        if sound {
            "Sound: on"
        } else {
            "Sound: off"
        }
    }

    /// Whether bar `i` is one of the highlighted pair.
    pub fn is_highlighted(&self, i: usize) -> (h: bool)
        ensures
            h == ((i as i32) == self.hi.0 || (i as i32) == self.hi.1),
    {
        i as i32 == self.hi.0 || i as i32 == self.hi.1
    }
}


/// Where playback stands after `k` more frames were played from `idx`, with
/// `total` frames recorded: playback never passes the end.
pub open spec fn advanced(idx: int, k: int, total: int) -> int {
    if idx >= total {
        idx
    } else if idx + k < total {
        idx + k
    } else {
        total
    }
}

/// The visualizer's state as values.
pub struct SortModel {
    pub arr: Seq<i32>,
    pub hi: (i32, i32),
    pub frames: Seq<FrameView>,
    pub idx: int,
    pub playing: bool,
    pub sound: bool,
}

impl View for Sort {
    type V = SortModel;

    open spec fn view(&self) -> SortModel {
        SortModel {
            arr: self.arr@,
            hi: self.hi,
            frames: frames_view(self.frames@),
            idx: self.idx as int,
            playing: self.playing,
            sound: self.sound,
        }
    }
}

/// The tones of the recorded frames `from` up to `to`: one per played frame.
pub open spec fn played_tones(frames: Seq<FrameView>, from: int, to: int) -> Seq<i32> {
    Seq::new((to - from) as nat, |k: int| frame_tone(frames[from + k]))
}

/// One animation frame of the visualizer, as values: the state after it and
/// the tones it sounds. While playing, it plays the next
/// `max(total / 260, 1)` recorded frames (never past the last), showing the
/// bars and highlight of the last one played, and with sound on each played
/// frame sounds its tone. When the end is reached it clears the highlight
/// and stops.
pub open spec fn spec_tick(s: SortModel) -> (SortModel, Seq<i32>) {
    if !s.playing {
        (s, Seq::empty())
    } else {
        let total = s.frames.len() as int;
        let end = advanced(s.idx, frames_per_tick(total), total);
        let last = s.frames[end - 1];
        let arr = if end > s.idx { last.0 } else { s.arr };
        let hi = if end >= total {
            (-1i32, -1i32)
        } else if end > s.idx {
            (last.1, last.2)
        } else {
            s.hi
        };
        let tones = if s.sound { played_tones(s.frames, s.idx, end) } else { Seq::empty() };
        (
            SortModel { arr, hi, frames: s.frames, idx: end, playing: end < total, sound: s.sound },
            tones,
        )
    }
}

impl Sort {
    /// One animation frame of the visualizer (see `spec_tick`): returns the
    /// tones to sound, in the order the frames were played.
    pub fn tick(&mut self) -> (tones: Vec<i32>)
        ensures
            final(self)@ == spec_tick(old(self)@).0,
            tones@ == spec_tick(old(self)@).1,
    {
        let mut tones: Vec<i32> = Vec::new();
        if !self.playing {
            return tones;
        }
        let ghost fv = frames_view(self.frames@);
        let ghost idx0 = self.idx as int;
        let ghost arr0 = self.arr@;
        let ghost hi0 = self.hi;
        let total = self.frames.len();
        let step = if total / 260 > 1 { total / 260 } else { 1 };
        let mut k: usize = 0;
        while k < step
            invariant
                fv == frames_view(self.frames@),
                total == fv.len(),
                k <= step,
                step == frames_per_tick(total as int),
                self.idx as int == advanced(idx0, k as int, total as int),
                self.idx <= total || self.idx as int == idx0,
                self.idx as int > idx0 ==> self.arr@ == fv[self.idx - 1].0 && self.hi == (
                    fv[self.idx - 1].1,
                    fv[self.idx - 1].2,
                ),
                self.idx as int == idx0 ==> self.arr@ == arr0 && self.hi == hi0,
                self.idx as int >= idx0,
                self.sound ==> tones@ == played_tones(fv, idx0, self.idx as int),
                !self.sound ==> tones@.len() == 0,
                self.frames@ == old(self).frames@,
                self.sound == old(self).sound,
                self.playing,
            decreases step - k,
        {
            if self.idx < total {
                let i = self.idx;
                let bars = crate::sorting::copy_bars(&self.frames[i].0);
                let first = self.frames[i].1;
                let second = self.frames[i].2;
                self.arr = bars;
                self.hi = (first, second);
                if self.sound {
                    let v = if first >= 0 && (first as usize) < self.arr.len() {
                        self.arr[first as usize]
                    } else {
                        1
                    };
                    tones.push(v);
                    assert(tones@ =~= played_tones(fv, idx0, i + 1));
                }
                self.idx = i + 1;
            }
            k = k + 1;
        }
        if self.idx >= total {
            self.hi = (-1, -1);
            self.playing = false;
        }
        proof {
            if !self.sound {
                assert(tones@ =~= Seq::<i32>::empty());
            }
        }
        tones
    }
}

/// The state after `n` animation frames.
pub open spec fn ticks(s: SortModel, n: nat) -> SortModel
    decreases n,
{
    if n == 0 {
        s
    } else {
        ticks(spec_tick(s).0, (n - 1) as nat)
    }
}

proof fn lemma_stopped_stays(s: SortModel, n: nat)
    requires
        !s.playing,
    ensures
        ticks(s, n) == s,
    decreases n,
{
    if n > 0 {
        lemma_stopped_stays(s, (n - 1) as nat);
    }
}

proof fn lemma_ticks_reach_end(base: Seq<i32>, s: SortModel, n: nat)
    requires
        s.playing,
        0 <= s.idx <= s.frames.len(),
        s.idx == 0 ==> s.arr == base,
        s.idx > 0 ==> s.arr == s.frames[s.idx - 1].0,
        n * frames_per_tick(s.frames.len() as int) >= s.frames.len() - s.idx,
        n >= 1,
    ensures
        !ticks(s, n).playing,
        ticks(s, n).arr == played_bars(base, s.frames),
        ticks(s, n).hi == (-1i32, -1i32),
        ticks(s, n).frames == s.frames,
        ticks(s, n).idx == s.frames.len(),
    decreases n,
{
    let t = spec_tick(s).0;
    let total = s.frames.len() as int;
    let step = frames_per_tick(total);
    if s.idx >= total || advanced(s.idx, step, total) >= total {
        lemma_stopped_stays(t, (n - 1) as nat);
    } else {
        let m = (n - 1) as nat;
        assert(m * step == n * step - step) by (nonlinear_arith)
            requires
                m == n - 1,
        ;
        assert(m * step >= total - t.idx);
        if m == 0 {
            assert(m * step == 0) by (nonlinear_arith)
                requires
                    m == 0,
            ;
        }
        lemma_ticks_reach_end(base, t, m);
    }
}

/// Pressing Sort and letting the animation run sorts the bars on screen:
/// from the state that `start` leaves on the bars `base`, once
/// `max(1, ceil(total / step))` animation frames have passed (`total`
/// recorded frames, `step = max(total / 260, 1)` played per animation
/// frame), playback has stopped with nothing highlighted on the bars of
/// `base` in ascending order.
pub proof fn lemma_playback_sorts(
    base: Seq<i32>,
    kind: SortKind,
    hi: (i32, i32),
    sound: bool,
    n: nat,
)
    requires
        n >= 1,
        n * frames_per_tick(spec_sort_frames(base, kind).len() as int) >= spec_sort_frames(
            base,
            kind,
        ).len(),
    ensures
        ({
            let start = SortModel {
                arr: base,
                hi,
                frames: spec_sort_frames(base, kind),
                idx: 0,
                playing: true,
                sound,
            };
            let end = ticks(start, n);
            &&& !end.playing
            &&& end.hi == (-1i32, -1i32)
            &&& end.idx == spec_sort_frames(base, kind).len()
            &&& is_sorted(end.arr)
            &&& end.arr.to_multiset() == base.to_multiset()
        }),
{
    let start = SortModel {
        arr: base,
        hi,
        frames: spec_sort_frames(base, kind),
        idx: 0,
        playing: true,
        sound,
    };
    lemma_ticks_reach_end(base, start, n);
    lemma_sort_frames_sort(base, kind);
}

/// What holds of every state the visualizer reaches once it has shuffled:
/// the bars are `1..=SN` in some order, every recorded frame shows such an
/// arrangement with two positions inside the bars highlighted, playback
/// stands within the recording, and the highlight is cleared when stopped
/// and inside the bars otherwise.
pub open spec fn sort_state_ok(s: SortModel) -> bool {
    &&& s.arr.len() == SN
    &&& s.arr.to_multiset() == ascending_bars(SN as int).to_multiset()
    &&& forall|k: int| 0 <= k < s.frames.len() ==> frame_fits(ascending_bars(SN as int), #[trigger] s.frames[k])
    &&& 0 <= s.idx <= s.frames.len()
    &&& !s.playing ==> s.hi == (-1i32, -1i32)
    &&& s.hi == (-1i32, -1i32) || (0 <= s.hi.0 < SN && 0 <= s.hi.1 < SN)
}

/// A shuffle, from any state, leaves the visualizer in a good state.
pub proof fn lemma_shuffle_establishes(s: SortModel, picks: Seq<usize>)
    requires
        valid_picks(picks),
    ensures
        sort_state_ok(spec_shuffle(s, picks)),
{
    lemma_shuffle_permutes(picks);
}

/// Every button press and animation frame keeps the visualizer in a good
/// state, so every state reached after the first shuffle is good.
pub proof fn lemma_state_preserved(s: SortModel, picks: Seq<usize>, name: Seq<char>)
    requires
        sort_state_ok(s),
        valid_picks(picks),
    ensures
        sort_state_ok(spec_tick(s).0),
        sort_state_ok(spec_start(s, name)),
        sort_state_ok(spec_request_shuffle(s, picks)),
        sort_state_ok(spec_toggle_sound(s)),
{
    let asc = ascending_bars(SN as int);
    lemma_shuffle_permutes(picks);
    // a tick shows a recorded frame, which fits the bars
    if s.playing {
        let total = s.frames.len() as int;
        let end = advanced(s.idx, frames_per_tick(total), total);
        if end > s.idx {
            assert(frame_fits(asc, s.frames[end - 1]));
        }
    }
    // starting records frames that fit the bars on screen
    if !s.playing {
        let kind = spec_kind_from_name(name);
        lemma_frames_fit(s.arr, kind);
        let fr = spec_sort_frames(s.arr, kind);
        assert forall|k: int| 0 <= k < fr.len() implies frame_fits(asc, #[trigger] fr[k]) by {
            assert(frame_fits(s.arr, fr[k]));
        }
    }
}

/// From a good stopped state, pressing Sort and letting the animation run
/// for `max(1, ceil(total / step))` animation frames stops playback with
/// nothing highlighted and the bars `1, 2, ..., SN` in order on screen.
pub proof fn lemma_sort_press_ends_in_order(s: SortModel, name: Seq<char>, n: nat)
    requires
        sort_state_ok(s),
        !s.playing,
        n >= 1,
        n * frames_per_tick(spec_sort_frames(s.arr, spec_kind_from_name(name)).len() as int)
            >= spec_sort_frames(s.arr, spec_kind_from_name(name)).len(),
    ensures
        !ticks(spec_start(s, name), n).playing,
        ticks(spec_start(s, name), n).hi == (-1i32, -1i32),
        ticks(spec_start(s, name), n).arr == ascending_bars(SN as int),
{
    let kind = spec_kind_from_name(name);
    lemma_playback_sorts(s.arr, kind, s.hi, s.sound, n);
    let e = ticks(spec_start(s, name), n);
    let asc = ascending_bars(SN as int);
    let leq = |x: i32, y: i32| x <= y;
    assert(sorted_by(e.arr, leq));
    assert(sorted_by(asc, leq));
    assert(total_ordering(leq));
    lemma_sorted_unique(e.arr, asc, leq);
}

} // verus!
