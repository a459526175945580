use meetily_speaker::repository::{SpeakerRepository, MAX_NAME_LEN};

#[test]
fn name_validation_rejects_empty() {
    assert!("".trim().is_empty());
    assert!("   ".trim().is_empty());
}

#[test]
fn name_validation_rejects_too_long() {
    let long = "A".repeat(201);
    assert!(long.trim().len() > MAX_NAME_LEN);
}

#[test]
fn name_validation_accepts_normal() {
    assert!(!"Alice".trim().is_empty());
    assert!("Alice".trim().len() <= MAX_NAME_LEN);
}

#[test]
fn name_validation_rejects_sql_injection() {
    let injection = "'; DROP TABLE speakers; --";
    assert!(!injection.trim().is_empty());
}

#[test]
fn stored_speaker_name_values() {
    assert_eq!(SpeakerRepository::stored_speaker_name("  Alice ").unwrap(), "Alice");
    assert_eq!(
        SpeakerRepository::stored_speaker_name("   ").unwrap_err(),
        "speaker name cannot be empty"
    );
    assert_eq!(
        SpeakerRepository::stored_speaker_name(&"B".repeat(201)).unwrap_err(),
        "speaker name too long: 201 chars (max 200)"
    );
    assert_eq!(
        SpeakerRepository::stored_speaker_name("<b>x</b>").unwrap(),
        "<b>x</b>"
    );
}

fn bits_of(values: &[f32]) -> Vec<u32> {
    values.iter().map(|v| v.to_bits()).collect()
}

#[test]
fn serialize_deserialize_round_trip() {
    let original: Vec<f32> = (0..256).map(|i| i as f32 * 0.01).collect();
    let blob = SpeakerRepository::serialize_embedding_bits(&bits_of(&original));
    assert_eq!(blob.len(), 256 * 4);

    let restored: Vec<f32> = SpeakerRepository::deserialize_embedding_bits(&blob)
        .unwrap()
        .into_iter()
        .map(f32::from_bits)
        .collect();
    assert_eq!(restored.len(), 256);
    for (i, (a, b)) in original.iter().zip(restored.iter()).enumerate() {
        assert_eq!(a, b, "mismatch at index {}", i);
    }
}

#[test]
fn deserialize_wrong_dimension_rejected() {
    let values = vec![0.5f32; 8];
    let blob = SpeakerRepository::serialize_embedding_bits(&bits_of(&values));
    let result = SpeakerRepository::deserialize_embedding_bits(&blob);
    assert!(result.is_err());
}

#[test]
fn deserialize_non_multiple_of_4_rejected() {
    let blob = vec![0u8; 13];
    let result = SpeakerRepository::deserialize_embedding_bits(&blob);
    assert!(result.is_err());
}

#[test]
fn blob_is_little_endian_f32() {
    let blob = SpeakerRepository::serialize_embedding_bits(&bits_of(&[1.0f32]));
    assert_eq!(blob, 1.0f32.to_le_bytes().to_vec());
    let blob2 = SpeakerRepository::serialize_embedding_bits(&[0x1234_5678]);
    assert_eq!(blob2, vec![0x78, 0x56, 0x34, 0x12]);
}

#[test]
fn deserialize_error_messages() {
    assert_eq!(
        SpeakerRepository::deserialize_embedding_bits(&[0u8; 13]).unwrap_err(),
        "embedding blob size 13 is not a multiple of 4"
    );
    assert_eq!(
        SpeakerRepository::deserialize_embedding_bits(&[0u8; 32]).unwrap_err(),
        "embedding dimension out of range [64, 1024]: got 8"
    );
    let mut values = vec![0.25f32; 64];
    values[3] = f32::NAN;
    let blob = SpeakerRepository::serialize_embedding_bits(&bits_of(&values));
    assert_eq!(
        SpeakerRepository::deserialize_embedding_bits(&blob).unwrap_err(),
        "non-finite value in stored embedding"
    );
}

#[test]
fn check_embedding_bits_values() {
    assert!(SpeakerRepository::check_embedding_bits(&bits_of(&vec![0.5f32; 64])).is_ok());
    assert!(SpeakerRepository::check_embedding_bits(&bits_of(&vec![0.5f32; 1024])).is_ok());
    assert_eq!(
        SpeakerRepository::check_embedding_bits(&bits_of(&vec![0.5f32; 63])).unwrap_err(),
        "embedding dimension out of range [64, 1024]: got 63"
    );
    assert_eq!(
        SpeakerRepository::check_embedding_bits(&bits_of(&vec![0.5f32; 1025])).unwrap_err(),
        "embedding dimension out of range [64, 1024]: got 1025"
    );
    let mut values = vec![0.5f32; 64];
    values[7] = f32::INFINITY;
    values[9] = f32::NAN;
    assert_eq!(
        SpeakerRepository::check_embedding_bits(&bits_of(&values)).unwrap_err(),
        "non-finite embedding value at index 7"
    );
    // Subnormals, zeros and the largest finite value are finite.
    let mut edge = vec![0.0f32; 64];
    edge[0] = f32::MAX;
    edge[1] = f32::MIN_POSITIVE / 2.0;
    edge[2] = -0.0;
    assert!(SpeakerRepository::check_embedding_bits(&bits_of(&edge)).is_ok());
}

use meetily_speaker::alignment::{AlignedSegment, SpeakerSource};
use meetily_speaker::repository::FragmentRow;

fn aseg(id: &str, start: i64, end: i64) -> AlignedSegment {
    AlignedSegment {
        original_id: id.to_string(),
        text: format!("text {id}"),
        audio_start_ms: start,
        audio_end_ms: end,
        speaker: "Speaker 0".to_string(),
        speaker_source: SpeakerSource::Auto,
    }
}

#[test]
fn manual_spans_suppress_by_midpoint() {
    let segs = vec![aseg("a", 0, 1_000), aseg("b", 900, 3_000), aseg("c", 3_000, 4_000), aseg("d", -3, 0)];
    // Manual row claims [1000, 2000): b's midpoint 1950 falls inside.
    let kept = SpeakerRepository::suppress_claimed_segments(segs, &[(1_000, 2_000)]);
    let ids: Vec<&str> = kept.iter().map(|s| s.original_id.as_str()).collect();
    assert_eq!(ids, vec!["a", "c", "d"]);
    // d's midpoint is -1 (rounded toward zero), outside [0, 10).
    let kept2 = SpeakerRepository::suppress_claimed_segments(vec![aseg("d", -3, 0)], &[(0, 10)]);
    assert_eq!(kept2.len(), 1);
    let kept3 = SpeakerRepository::suppress_claimed_segments(vec![aseg("d", -3, 0)], &[(-1, 0)]);
    assert!(kept3.is_empty());
    // The end of a span is open.
    let kept4 = SpeakerRepository::suppress_claimed_segments(vec![aseg("e", 0, 4_000)], &[(0, 2_000)]);
    assert_eq!(kept4.len(), 1);
}

#[test]
fn empty_rendering_outcome_values() {
    assert_eq!(SpeakerRepository::empty_rendering_outcome("m1", 0).unwrap(), 0);
    assert_eq!(
        SpeakerRepository::empty_rendering_outcome("m1", 3).unwrap_err(),
        "degenerate diarization output for meeting m1: 0 aligned segments over 3 source row(s) — persist aborted, prior rendering left intact"
    );
}

#[test]
fn rendering_inserts_skip_unknown_sources() {
    let kept = vec![aseg("s2", 0, 1), aseg("zz", 1, 2), aseg("s1", 2, 3)];
    let ids = vec!["s1".to_string(), "s2".to_string()];
    assert_eq!(SpeakerRepository::rendering_inserts(&kept, &ids), vec![(0, 1), (2, 0)]);
}

fn frag(id: &str, label: Option<&str>, source: Option<&str>, start: i64, end: i64, text: &str) -> FragmentRow {
    FragmentRow {
        id: id.to_string(),
        speaker_label: label.map(|s| s.to_string()),
        speaker_source: source.map(|s| s.to_string()),
        start_ms: start,
        end_ms: end,
        transcript: text.to_string(),
    }
}

#[test]
fn consolidation_merges_neighbors_and_keeps_manual_rows_alone() {
    let frags = vec![
        frag("r1", Some("Speaker 0"), Some("auto"), 0, 1_000, "Hello there"),
        frag("r2", Some("Speaker 0"), Some("auto"), 1_200, 2_000, "how are you ?"),
        frag("r3", Some("Speaker 0"), Some("manual"), 2_100, 3_000, "renamed row"),
        frag("r4", Some("Speaker 0"), Some("auto"), 3_100, 4_000, ","),
        frag("r5", None, None, 4_100, 5_000, "who said this"),
        frag("r6", Some("Speaker 1"), Some("auto"), 9_000, 9_500, "Fine."),
    ];
    let plan = SpeakerRepository::consolidation_plan(&frags);
    let rows: Vec<Vec<usize>> = plan.groups.iter().map(|g| g.row_indexes.clone()).collect();
    assert_eq!(rows, vec![vec![0, 1], vec![2], vec![4], vec![5]]);
    assert_eq!(plan.groups[0].turn.text, "Hello there how are you?");
    assert_eq!(plan.groups[0].turn.speaker, "Speaker 0");
    assert_eq!(plan.groups[1].turn.speaker, "manual:r3");
    assert_eq!(plan.groups[2].turn.speaker, "Unknown Speaker");
    assert_eq!(plan.rewrite, vec![true, false, false, false]);
    // r2 absorbed into r1's turn; the comma-only r4 has no content.
    assert_eq!(plan.deleted, vec![1, 3]);
}

#[test]
fn consolidation_rewrites_changed_singletons() {
    let frags = vec![frag("r1", Some("Speaker 0"), None, 0, 1_000, "How 's it going ?")];
    let plan = SpeakerRepository::consolidation_plan(&frags);
    assert_eq!(plan.rewrite, vec![true]);
    assert_eq!(plan.groups[0].turn.text, "How's it going?");
    assert!(plan.deleted.is_empty());
    assert!(SpeakerRepository::consolidation_plan(&[]).groups.is_empty());
}

fn consolidated(frags: &[FragmentRow]) -> Vec<FragmentRow> {
    let plan = SpeakerRepository::consolidation_plan(frags);
    plan.groups
        .iter()
        .map(|g| {
            let first = &frags[g.row_indexes[0]];
            FragmentRow {
                id: first.id.clone(),
                speaker_label: first.speaker_label.clone(),
                speaker_source: first.speaker_source.clone(),
                start_ms: g.turn.start_ms,
                end_ms: g.turn.end_ms,
                transcript: g.turn.text.clone(),
            }
        })
        .collect()
}

#[test]
fn second_consolidation_changes_nothing() {
    let frags = vec![
        frag("r1", Some("Speaker 0"), Some("auto"), 0, 1_000, "So , the plan"),
        frag("r2", Some("Speaker 0"), Some("auto"), 0, 500, "Okay ."),
        frag("r3", Some("Speaker 1"), Some("auto"), 1_100, 2_000, "sounds good"),
        frag("r4", Some("Speaker 0"), Some("auto"), 2_100, 9_000, "is done"),
        frag("r5", Some("Speaker 0"), Some("manual"), 9_100, 9_900, "mine"),
        frag("r6", Some("Speaker 0"), Some("auto"), 9_950, 12_000, "again"),
    ];
    let again = consolidated(&frags);
    let plan = SpeakerRepository::consolidation_plan(&again);
    assert_eq!(plan.groups.len(), again.len());
    assert!(plan.rewrite.iter().all(|r| !r));
    assert!(plan.deleted.is_empty());
}

#[test]
fn apostrophe_led_merged_row_is_glued_on_a_second_pass() {
    let frags = vec![
        frag("r1", Some("Speaker 0"), None, 0, 1_000, "hello"),
        frag("r2", Some("Speaker 0"), None, 1_100, 2_000, "'s fine"),
    ];
    let again = consolidated(&frags);
    assert_eq!(again[0].transcript, "hello 's fine");
    let plan = SpeakerRepository::consolidation_plan(&again);
    assert_eq!(plan.rewrite, vec![true]);
    assert_eq!(plan.groups[0].turn.text, "hello's fine");
}
