use portfolio::player::{sort_shuffle, Sort, SN};
use portfolio::sorting::{sort_frames, SortKind};

fn is_sorted(a: &[i32]) -> bool {
    a.windows(2).all(|w| w[0] <= w[1])
}

fn sorted_copy(a: &[i32]) -> Vec<i32> {
    let mut v = a.to_vec();
    v.sort();
    v
}

#[test]
fn kind_from_name() {
    assert_eq!(SortKind::from_name("insertion"), SortKind::Insertion);
    assert_eq!(SortKind::from_name("selection"), SortKind::Selection);
    assert_eq!(SortKind::from_name("bubble"), SortKind::Bubble);
    assert_eq!(SortKind::from_name("quick"), SortKind::Bubble);
    assert_eq!(SortKind::from_name(""), SortKind::Bubble);
}

#[test]
fn bubble_frames_two_bars() {
    let f = sort_frames(&[2, 1], "bubble");
    assert_eq!(f, vec![(vec![2, 1], 0, 1), (vec![1, 2], 0, 1)]);
}

#[test]
fn bubble_frames_record_every_comparison() {
    let f = sort_frames(&[1, 3, 2], "bubble");
    assert_eq!(
        f,
        vec![
            (vec![1, 3, 2], 0, 1),
            (vec![1, 3, 2], 1, 2),
            (vec![1, 2, 3], 1, 2),
            (vec![1, 2, 3], 0, 1),
        ]
    );
}

#[test]
fn insertion_frames_record_swaps_only() {
    let f = sort_frames(&[3, 1, 2], "insertion");
    assert_eq!(
        f,
        vec![
            (vec![3, 1, 2], 0, 1),
            (vec![1, 3, 2], 0, 1),
            (vec![1, 3, 2], 1, 2),
            (vec![1, 2, 3], 1, 2),
        ]
    );
    assert!(sort_frames(&[1, 2, 3], "insertion").is_empty());
}

#[test]
fn selection_frames_record_comparisons_and_pass_swaps() {
    let f = sort_frames(&[2, 3, 1], "selection");
    assert_eq!(
        f,
        vec![
            (vec![2, 3, 1], 0, 1),
            (vec![2, 3, 1], 0, 2),
            (vec![1, 3, 2], 0, 2),
            (vec![1, 3, 2], 1, 2),
            (vec![1, 2, 3], 1, 2),
        ]
    );
}

#[test]
fn unknown_kind_records_bubble_sort() {
    assert_eq!(sort_frames(&[3, 1, 2], "heap"), sort_frames(&[3, 1, 2], "bubble"));
}

#[test]
fn short_inputs_record_nothing() {
    for kind in ["bubble", "insertion", "selection"] {
        assert!(sort_frames(&[], kind).is_empty());
        assert!(sort_frames(&[7], kind).is_empty());
    }
}

#[test]
fn last_frame_is_sorted_and_frames_fit() {
    let inputs: Vec<Vec<i32>> = vec![
        vec![5, 1, 4, 2, 3],
        vec![3, 3, 1, 2, 1],
        vec![9, 8, 7, 6, 5, 4, 3, 2, 1],
        vec![-1, 0, -5, 10, 10],
    ];
    for base in inputs {
        for kind in ["bubble", "insertion", "selection"] {
            let f = sort_frames(&base, kind);
            let last = f.last().map(|x| x.0.clone()).unwrap_or(base.clone());
            assert!(is_sorted(&last));
            assert_eq!(sorted_copy(&last), sorted_copy(&base));
            for (bars, a, b) in &f {
                assert_eq!(sorted_copy(bars), sorted_copy(&base));
                assert!(0 <= *a && *a < *b && (*b as usize) < base.len());
            }
        }
    }
}

#[test]
fn new_sort_state() {
    let s = Sort::new();
    assert!(s.arr.is_empty());
    assert_eq!(s.hi, (-1, -1));
    assert!(!s.playing);
    assert!(s.sound);
}

#[test]
fn shuffle_with_zero_picks_rotates() {
    let mut s = Sort::new();
    let picks = vec![0usize; (SN - 1) as usize];
    sort_shuffle(&mut s, &picks);
    // each step swaps position i (from 43 down to 1) with 0: 1..=44 becomes 2, 3, ..., 44, 1
    let mut expected: Vec<i32> = (2..=SN).collect();
    expected.push(1);
    assert_eq!(s.arr, expected);
}

#[test]
fn shuffle_with_identity_picks_keeps_order() {
    let mut s = Sort::new();
    let picks: Vec<usize> = (0..(SN - 1) as usize).map(|k| (SN as usize) - 1 - k).collect();
    sort_shuffle(&mut s, &picks);
    assert_eq!(s.arr, (1..=SN).collect::<Vec<i32>>());
}

#[test]
fn shuffle_is_permutation() {
    let mut s = Sort::new();
    let picks: Vec<usize> = (0..(SN - 1) as usize).map(|k| (k * 7) % ((SN as usize) - k)).collect();
    sort_shuffle(&mut s, &picks);
    assert_eq!(sorted_copy(&s.arr), (1..=SN).collect::<Vec<i32>>());
    assert_eq!(s.hi, (-1, -1));
    assert!(s.frames.is_empty());
    assert_eq!(s.idx, 0);
}

fn frame_tone(f: &(Vec<i32>, i32, i32)) -> i32 {
    if f.1 >= 0 && (f.1 as usize) < f.0.len() {
        f.0[f.1 as usize]
    } else {
        1
    }
}

#[test]
fn playback_ends_sorted_with_a_tone_per_frame() {
    for kind in ["bubble", "insertion", "selection"] {
        let mut s = Sort::new();
        let picks: Vec<usize> = (0..(SN - 1) as usize).map(|k| (k * 5 + 3) % ((SN as usize) - k)).collect();
        sort_shuffle(&mut s, &picks);
        assert!(s.start(kind));
        assert!(!s.start(kind));
        let total = s.frames.len();
        let step = (total / 260).max(1);
        let expected_ticks = ((total + step - 1) / step).max(1);
        let expected_tones: Vec<i32> = s.frames.iter().map(frame_tone).collect();
        let mut ticks = 0;
        let mut tones = Vec::new();
        while s.playing {
            tones.extend(s.tick());
            ticks += 1;
        }
        assert_eq!(ticks, expected_ticks);
        assert_eq!(tones, expected_tones);
        assert_eq!(s.arr, (1..=SN).collect::<Vec<i32>>());
        assert_eq!(s.hi, (-1, -1));
        assert_eq!(s.idx, total);
    }
}

#[test]
fn muted_playback_is_silent() {
    let mut s = Sort::new();
    sort_shuffle(&mut s, &vec![0usize; (SN - 1) as usize]);
    assert!(!s.toggle_sound());
    assert_eq!(Sort::sound_label(s.sound), "Sound: off");
    assert_eq!(Sort::sound_label(true), "Sound: on");
    s.start("bubble");
    while s.playing {
        assert!(s.tick().is_empty());
    }
    assert_eq!(s.arr, (1..=SN).collect::<Vec<i32>>());
}

#[test]
fn tick_plays_total_over_260_frames_at_once() {
    let mut s = Sort::new();
    // reversed bars: bubble sort records 946 comparisons and 946 swaps
    s.arr = (1..=SN).rev().collect();
    s.start("bubble");
    assert_eq!(s.frames.len(), 1892);
    let tones = s.tick();
    assert_eq!(s.idx, 1892 / 260);
    let expected: Vec<i32> = s.frames[..s.idx].iter().map(frame_tone).collect();
    assert_eq!(tones, expected);
    let last = &s.frames[s.idx - 1];
    assert_eq!(s.arr, last.0);
    assert_eq!(s.hi, (last.1, last.2));
}

#[test]
fn last_comparison_sounds() {
    let mut s = Sort::new();
    s.arr = vec![2, 1];
    s.start("bubble");
    assert_eq!(s.tick(), vec![2]);
    assert!(s.playing);
    // the final frame (after the swap) still sounds, on the tick that stops
    assert_eq!(s.tick(), vec![1]);
    assert!(!s.playing);
    assert_eq!(s.hi, (-1, -1));
    assert_eq!(s.arr, vec![1, 2]);
}

#[test]
fn tick_on_sorted_insertion_stops_at_once() {
    let mut s = Sort::new();
    s.arr = vec![1, 2, 3];
    s.hi = (0, 1);
    s.start("insertion");
    assert!(s.frames.is_empty());
    assert!(s.tick().is_empty());
    assert!(!s.playing);
    assert_eq!(s.hi, (-1, -1));
    assert_eq!(s.arr, vec![1, 2, 3]);
}

#[test]
fn tick_when_not_playing_changes_nothing() {
    let mut s = Sort::new();
    s.arr = vec![3, 1];
    assert!(s.tick().is_empty());
    assert_eq!(s.arr, vec![3, 1]);
    assert_eq!(s.idx, 0);
}

#[test]
fn shuffle_refused_while_playing() {
    let mut s = Sort::new();
    s.arr = vec![2, 1];
    s.start("bubble");
    let picks = vec![0usize; (SN - 1) as usize];
    assert!(!s.request_shuffle(&picks));
    assert_eq!(s.arr, vec![2, 1]);
    while s.playing {
        s.tick();
    }
    assert!(s.request_shuffle(&picks));
    assert_eq!(s.arr.len(), SN as usize);
}

#[test]
fn highlight_membership() {
    let mut s = Sort::new();
    s.hi = (2, 5);
    assert!(s.is_highlighted(2));
    assert!(s.is_highlighted(5));
    assert!(!s.is_highlighted(3));
}

#[test]
fn every_reached_state_is_good() {
    let mut s = Sort::new();
    let picks: Vec<usize> = (0..(SN - 1) as usize).map(|k| (k * 11 + 1) % ((SN as usize) - k)).collect();
    sort_shuffle(&mut s, &picks);
    let check = |s: &Sort| {
        assert_eq!(sorted_copy(&s.arr), (1..=SN).collect::<Vec<i32>>());
        assert!(s.idx <= s.frames.len());
        if !s.playing {
            assert_eq!(s.hi, (-1, -1));
        }
        assert!(s.hi == (-1, -1) || (0 <= s.hi.0 && s.hi.0 < SN && 0 <= s.hi.1 && s.hi.1 < SN));
    };
    check(&s);
    s.start("selection");
    check(&s);
    for round in 0..50 {
        s.tick();
        check(&s);
        if round % 7 == 0 {
            s.toggle_sound();
            s.request_shuffle(&picks);
            check(&s);
        }
    }
}
