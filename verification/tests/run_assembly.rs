use meetily_speaker::run_assembly::{
    confusion_valleys, is_mid_sentence_start, label_change_candidates, mode_filter_labels,
    rescue_dist_ms, slot_change_candidates, turn_texts, AlignedFragment, SpeechRun,
    SILENCE_LABEL,
};

/// Per-frame speaker masses as the segmentation model reports them.
#[derive(Clone, Copy, Default)]
struct FrameMasses {
    speaker: [f32; 3],
    silence: f32,
}

fn spk(i: usize, m: f32) -> FrameMasses {
    let mut f = FrameMasses::default();
    f.speaker[i] = m;
    f
}

/// A frame is contested when its strongest speaker mass is below 0.7 while
/// the second strongest reaches 0.15.
fn contested(frames: &[FrameMasses]) -> Vec<bool> {
    frames
        .iter()
        .map(|f| {
            let mut s = f.speaker;
            s.sort_by(|a, b| b.partial_cmp(a).unwrap_or(std::cmp::Ordering::Equal));
            let _ = f.silence;
            s[0] < 0.7 && s[1] >= 0.15
        })
        .collect()
}

#[test]
fn mode_filter_removes_single_frame_flicker() {
    let mut labels = vec![0u8; 10];
    labels[5] = 1;
    assert_eq!(mode_filter_labels(&labels, 3), vec![0u8; 10]);
}

#[test]
fn mode_filter_tie_is_deterministic_smallest_label() {
    let labels = vec![0u8, 1, 0, 1];
    let a = mode_filter_labels(&labels, 1);
    let b = mode_filter_labels(&labels, 1);
    assert_eq!(a, b);
}

#[test]
fn slot_change_candidates_fire_across_absorbed_silence() {
    let mut track = vec![0u8; 20];
    track.extend(vec![SILENCE_LABEL; 2]);
    track.extend(vec![1u8; 20]);
    let run = SpeechRun { start_frame: 0, end_frame: track.len() };
    let cands = slot_change_candidates(&track, &run, 0);
    assert_eq!(cands, vec![21], "midpoint of the 2-frame silence");
}

#[test]
fn slot_change_candidates_ignores_same_slot_pause() {
    let mut track = vec![0u8; 10];
    track.extend(vec![SILENCE_LABEL; 3]);
    track.extend(vec![0u8; 12]);
    let run = SpeechRun { start_frame: 0, end_frame: track.len() };
    assert!(slot_change_candidates(&track, &run, 1).is_empty());
}

#[test]
fn confusion_valleys_find_the_pin_b_signature() {
    let mut frames = Vec::new();
    for _ in 0..10 {
        frames.push(spk(1, 0.98));
    }
    for i in 0..10 {
        let mut f = FrameMasses::default();
        f.speaker[1] = 0.45 - i as f32 * 0.02;
        f.speaker[2] = 0.30;
        f.silence = 1.0 - f.speaker[1] - f.speaker[2];
        frames.push(f);
    }
    for _ in 0..10 {
        frames.push(spk(1, 0.98));
    }
    let run = SpeechRun { start_frame: 0, end_frame: frames.len() };
    let valleys = confusion_valleys(&contested(&frames), &run);
    assert_eq!(valleys, vec![(10, 20)], "one valley over the contested span");
}

#[test]
fn confusion_valleys_ignores_clean_and_solo_quiet_frames() {
    let mut frames = Vec::new();
    for _ in 0..20 {
        frames.push(spk(0, 0.98));
    }
    let mut quiet = FrameMasses::default();
    quiet.speaker[0] = 0.4;
    quiet.silence = 0.6;
    for _ in 0..5 {
        frames.push(quiet);
    }
    for _ in 0..20 {
        frames.push(spk(0, 0.98));
    }
    let run = SpeechRun { start_frame: 0, end_frame: frames.len() };
    assert!(confusion_valleys(&contested(&frames), &run).is_empty());
}

#[test]
fn confusion_valleys_merge_nearby_contested_frames() {
    let mut frames = vec![spk(0, 0.98); 40];
    for f in 10..15 {
        let mut m = FrameMasses::default();
        m.speaker[0] = 0.5;
        m.speaker[1] = 0.3;
        m.silence = 0.2;
        frames[f] = m;
    }
    for f in 20..25 {
        let mut m = FrameMasses::default();
        m.speaker[0] = 0.5;
        m.speaker[1] = 0.3;
        m.silence = 0.2;
        frames[f] = m;
    }
    let run = SpeechRun { start_frame: 0, end_frame: frames.len() };
    assert_eq!(confusion_valleys(&contested(&frames), &run), vec![(10, 25)]);
}

#[test]
fn confusion_valleys_never_escape_the_run() {
    let mut contested_frame = spk(0, 0.3);
    contested_frame.speaker[1] = 0.5;
    let mut frames = vec![spk(0, 0.98); 30];
    frames[0] = contested_frame;
    frames[29] = contested_frame;
    let run = SpeechRun { start_frame: 5, end_frame: 25 };
    assert!(confusion_valleys(&contested(&frames), &run).is_empty());
}

#[test]
fn mid_sentence_start_detection() {
    assert!(is_mid_sentence_start("and I was like"));
    assert!(is_mid_sentence_start("  -- (five years of it"));
    assert!(!is_mid_sentence_start("Okay. I have some updates."));
    assert!(!is_mid_sentence_start("5 years ago"));
    assert!(!is_mid_sentence_start(""));
    assert!(!is_mid_sentence_start("…?!"));
}

// --- further cases ---

#[test]
fn mode_filter_values() {
    // Radius 0 leaves the track unchanged.
    assert_eq!(mode_filter_labels(&[3, 1, 2], 0), vec![3, 1, 2]);
    assert_eq!(mode_filter_labels(&[], 4), Vec::<u8>::new());
    // [0,1,0,1], radius 1: the clamped windows are [0,0,1] [0,1,0] [1,0,1] [0,1,1].
    assert_eq!(mode_filter_labels(&[0, 1, 0, 1], 1), vec![0, 0, 1, 1]);
    // [5,2], radius 1: windows [5,5,2] and [5,2,2].
    assert_eq!(mode_filter_labels(&[5, 2], 1), vec![5, 2]);
    // A three-way tie goes to the smallest label: frame 1 of [2,9,1] sees [2,9,1].
    assert_eq!(mode_filter_labels(&[2, 9, 1], 1), vec![2, 1, 1]);
    // Radius larger than the track: the clamped edges carry the windows.
    assert_eq!(mode_filter_labels(&[1, 9, 9], 10), vec![1, 9, 9]);
    assert_eq!(mode_filter_labels(&[1, 1, 9], 10), vec![1, 1, 9]);
}

#[test]
fn label_change_candidates_values() {
    let mut track = vec![0u8; 10];
    track.extend(vec![1u8; 10]);
    let run = SpeechRun { start_frame: 0, end_frame: track.len() };
    assert_eq!(label_change_candidates(&track, &run, 0), vec![10]);
    // A change into silence is no candidate.
    let mut quiet = vec![0u8; 10];
    quiet.extend(vec![SILENCE_LABEL; 10]);
    let run2 = SpeechRun { start_frame: 0, end_frame: quiet.len() };
    assert!(label_change_candidates(&quiet, &run2, 0).is_empty());
    // Candidates are absolute frames; the run end is clamped to the track.
    let run3 = SpeechRun { start_frame: 5, end_frame: 100 };
    assert_eq!(label_change_candidates(&track, &run3, 0), vec![10]);
    // A change between the run's first two frames is excluded.
    let run4 = SpeechRun { start_frame: 9, end_frame: 15 };
    assert!(label_change_candidates(&track, &run4, 0).is_empty());
    // Empty run.
    let run5 = SpeechRun { start_frame: 30, end_frame: 10 };
    assert!(label_change_candidates(&track, &run5, 0).is_empty());
}

#[test]
fn slot_change_candidates_direct_flip_and_offset() {
    let mut track = vec![2u8; 5];
    track.extend(vec![0u8; 5]);
    let run = SpeechRun { start_frame: 0, end_frame: track.len() };
    assert_eq!(slot_change_candidates(&track, &run, 0), vec![5]);
    let run2 = SpeechRun { start_frame: 3, end_frame: 8 };
    assert_eq!(slot_change_candidates(&track, &run2, 0), vec![5]);
    // Silence of odd length: midpoint rounds down.
    let mut t2 = vec![0u8; 4];
    t2.extend(vec![SILENCE_LABEL; 3]);
    t2.extend(vec![1u8; 4]);
    let run3 = SpeechRun { start_frame: 0, end_frame: t2.len() };
    assert_eq!(slot_change_candidates(&t2, &run3, 0), vec![5]);
}

#[test]
fn confusion_valleys_split_when_far_apart() {
    let mut flags = vec![false; 40];
    for f in 5..7 {
        flags[f] = true;
    }
    for f in 17..19 {
        flags[f] = true;
    }
    let run = SpeechRun { start_frame: 0, end_frame: 40 };
    assert_eq!(confusion_valleys(&flags, &run), vec![(5, 7), (17, 19)]);
    // Exactly MERGE-1 frames past the end still merges.
    let mut near = vec![false; 40];
    near[5] = true;
    near[15] = true;
    assert_eq!(confusion_valleys(&near, &run), vec![(5, 16)]);
    let mut far = vec![false; 40];
    far[5] = true;
    far[16] = true;
    assert_eq!(confusion_valleys(&far, &run), vec![(5, 6), (16, 17)]);
}

#[test]
fn rescue_dist_values() {
    assert_eq!(rescue_dist_ms(5, 0, 10), 0);
    assert_eq!(rescue_dist_ms(0, 0, 10), 0);
    assert_eq!(rescue_dist_ms(10, 0, 10), 0);
    assert_eq!(rescue_dist_ms(12, 0, 10), 2);
    assert_eq!(rescue_dist_ms(-3, 0, 10), 3);
}

#[test]
fn mid_sentence_unicode() {
    assert!(is_mid_sentence_start("«élan vital»"));
    assert!(!is_mid_sentence_start("Élan"));
    assert!(!is_mid_sentence_start("¿Qué?"));
}

fn frag(row_idx: usize, turn_idx: usize, text: &str) -> AlignedFragment {
    AlignedFragment { row_idx, turn_idx, text: text.to_string() }
}

#[test]
fn turn_texts_join_trimmed_fragments_in_order() {
    let frags = vec![
        frag(0, 0, "  Hello there. "),
        frag(1, 1, "Where is"),
        frag(1, 0, "   "),
        frag(2, 0, "How are you?"),
        frag(2, 1, " Ricardo\n"),
    ];
    let texts = turn_texts(3, &frags);
    assert_eq!(texts, vec![
        "Hello there. How are you?".to_string(),
        "Where is Ricardo".to_string(),
        String::new(),
    ]);
}

#[test]
fn turn_texts_without_fragments_are_empty() {
    assert_eq!(turn_texts(2, &[]), vec![String::new(), String::new()]);
    assert!(turn_texts(0, &[frag(0, 0, "lost")]).is_empty());
}

#[test]
fn confusion_valleys_are_separated_and_cover_contested_frames() {
    let mut flags = vec![false; 60];
    for f in [3, 5, 9, 30, 31, 45, 58] {
        flags[f] = true;
    }
    let run = SpeechRun { start_frame: 2, end_frame: 59 };
    let spans = confusion_valleys(&flags, &run);
    for w in spans.windows(2) {
        assert!(w[0].1 + 10 <= w[1].0);
    }
    for &(a, b) in &spans {
        assert!(2 <= a && a < b && b <= 59 && flags[a] && flags[b - 1]);
    }
    for f in 2..59 {
        if flags[f] {
            assert_eq!(spans.iter().filter(|(a, b)| *a <= f && f < *b).count(), 1);
        }
    }
    assert_eq!(spans, vec![(3, 10), (30, 32), (45, 46), (58, 59)]);
}
