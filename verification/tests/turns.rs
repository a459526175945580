use meetily_speaker::turns::{assemble_groups, assemble_turns, detokenize, RowRef};
const SP0: &str = "Speaker 0";
const SP1: &str = "Speaker 1";

fn row<'a>(speaker: &'a str, start: i64, end: i64, text: &'a str) -> RowRef<'a> {
    RowRef { speaker, start_ms: start, end_ms: end, text }
}

// --- detokenize ---

#[test]
fn detokenize_fixes_spacing_and_contractions() {
    assert_eq!(detokenize("How 's it going ?"), "How's it going?");
    assert_eq!(detokenize("I don 't like you 've aged"), "I don't like you've aged");
    assert_eq!(detokenize("Yeah , sure , sure"), "Yeah, sure, sure");
    assert_eq!(detokenize("wait ..."), "wait...");
    assert_eq!(detokenize("plain text"), "plain text");
}

#[test]
fn detokenize_drops_leading_punctuation() {
    assert_eq!(detokenize(". Okay . I have updates"), "Okay. I have updates");
    assert_eq!(detokenize(",,"), "");
}

// --- assemble_turns ---

#[test]
fn assembles_same_speaker_fragments_into_one_turn() {
    let rows = [
        row(SP0, 16_200, 20_180, ". Okay . I have some updates . Cool . On the"),
        row(SP0, 20_180, 26_110, "to , let 's , wait"),
    ];
    let turns = assemble_turns(&rows);
    assert_eq!(turns.len(), 1);
    assert_eq!(turns[0].speaker, SP0);
    assert_eq!(turns[0].start_ms, 16_200);
    assert_eq!(turns[0].end_ms, 26_110);
    assert_eq!(turns[0].text, "Okay. I have some updates. Cool. On the to, let's, wait");
}

#[test]
fn speaker_flip_never_merges_and_backchannel_joins_own_speaker() {
    let rows = [
        row(SP1, 100_000, 102_000, "We 're going to do that"),
        row(SP1, 102_300, 102_800, "Yeah ,"),
        row(SP0, 102_900, 103_500, "your image search"),
        row(SP1, 103_600, 105_000, "Fine"),
    ];
    let turns = assemble_turns(&rows);
    assert_eq!(turns.len(), 3, "interjection splits, backchannel joins: {:?}", turns);
    assert_eq!(turns[0].speaker, SP1);
    assert_eq!(turns[0].text, "We're going to do that Yeah,");
    assert_eq!(turns[1].speaker, SP0);
    assert_eq!(turns[1].text, "your image search");
    assert_eq!(turns[2].text, "Fine");
}

#[test]
fn gap_over_three_seconds_starts_new_turn() {
    let rows = [
        row(SP0, 0, 2_000, "First thought"),
        row(SP0, 6_000, 8_000, "Second thought"),
    ];
    let turns = assemble_turns(&rows);
    assert_eq!(turns.len(), 2);
}

#[test]
fn punctuation_only_rows_are_dropped() {
    let rows = [
        row(SP0, 0, 1_420, ","),
        row(SP0, 5_870, 12_070, "How 's it going ?"),
    ];
    let turns = assemble_turns(&rows);
    assert_eq!(turns.len(), 1, "comma-only row gone, silence keeps turns apart");
    assert_eq!(turns[0].text, "How's it going?");
}

// --- content preservation ---

#[test]
fn assembly_preserves_alphanumeric_content() {
    let rows = [
        row(SP0, 0, 1_000, ","),
        row(SP0, 1_000, 2_000, "How 's it going ?"),
        row(SP1, 2_100, 3_000, "Yeah , fine"),
        row(SP0, 9_000, 10_000, ". Okay"),
    ];
    let norm = |s: &str| -> String {
        let mut c: Vec<char> = s.chars().filter(|c| c.is_alphanumeric()).collect();
        c.sort_unstable();
        c.into_iter().collect()
    };
    let input: String = rows.iter().map(|r| norm(r.text)).collect();
    let output: String = assemble_turns(&rows).iter().map(|t| norm(&t.text)).collect();
    assert_eq!(input, output);
}

// --- laws on concrete rows ---

#[test]
fn adjacent_turns_are_kept_apart() {
    let rows = [
        row(SP0, 0, 1_000, "one"),
        row(SP1, 1_100, 2_000, "two"),
        row(SP1, 2_100, 3_000, "three"),
        row(SP1, 6_001, 7_000, "four"),
        row(SP1, 10_000, 11_000, "five"),
    ];
    let turns = assemble_turns(&rows);
    assert_eq!(turns.len(), 3);
    assert_eq!(turns[2].text, "four five");
    for w in turns.windows(2) {
        assert!(w[0].speaker != w[1].speaker || w[1].start_ms - w[0].end_ms > 3_000);
    }
    // A gap of exactly 3 s still joins.
    let joined = assemble_turns(&[row(SP0, 0, 1_000, "a"), row(SP0, 4_000, 5_000, "b")]);
    assert_eq!(joined.len(), 1);
    assert_eq!(joined[0].text, "a b");
    assert_eq!(joined[0].end_ms, 5_000);
}

#[test]
fn groups_report_rows_in_time_order_and_drop_contentless_rows() {
    let rows = [
        row(SP0, 5_000, 6_000, "later"),
        row(SP0, 0, 1_000, "first"),
        row(SP1, 2_000, 2_500, "?!"),
        row(SP0, 1_500, 7_000, "middle"),
    ];
    let groups = assemble_groups(&rows);
    assert_eq!(groups.len(), 1);
    assert_eq!(groups[0].row_indexes, vec![1, 3, 0]);
    assert_eq!(groups[0].turn.text, "first middle later");
    assert_eq!(groups[0].turn.start_ms, 0);
    assert_eq!(groups[0].turn.end_ms, 7_000);
}

#[test]
fn equal_starts_order_by_end_then_input() {
    let rows = [
        row(SP0, 0, 900, "b"),
        row(SP1, 0, 500, "a"),
        row(SP0, 0, 900, "c"),
    ];
    let groups = assemble_groups(&rows);
    assert_eq!(groups.len(), 2);
    assert_eq!(groups[0].row_indexes, vec![1]);
    assert_eq!(groups[1].row_indexes, vec![0, 2]);
    assert_eq!(groups[1].turn.text, "b c");
}

fn alnum(s: &str) -> String {
    s.chars().filter(|c| c.is_alphanumeric()).collect()
}

#[test]
fn detokenize_keeps_alphanumerics_and_single_spaces() {
    for text in ["  , well  I 'm   here ! ok  ", "How 's it going ?", "..., x", "a\tb\nc"] {
        let d = detokenize(text);
        assert_eq!(alnum(&d), alnum(text));
        assert_eq!(d, d.trim());
        assert!(!d.contains("  "));
        assert!(d.chars().all(|c| !c.is_whitespace() || c == ' '));
    }
}

#[test]
fn assembly_ignores_row_order_when_spans_differ() {
    let a = [
        row(SP0, 0, 1000, "Hello there."),
        row(SP0, 1500, 2500, "How are you?"),
        row(SP1, 3000, 4000, "Fine, thanks."),
        row(SP0, 9000, 9500, "Good."),
    ];
    let b = [a[2], a[0], a[3], a[1]];
    assert_eq!(assemble_turns(&a), assemble_turns(&b));
}

#[test]
fn turn_rows_come_in_time_order() {
    let rows = [
        row(SP0, 1500, 2500, "second"),
        row(SP0, 0, 1000, "first"),
        row(SP0, 1500, 2000, "between"),
    ];
    let groups = assemble_groups(&rows);
    assert_eq!(groups.len(), 1);
    assert_eq!(groups[0].row_indexes, vec![1, 2, 0]);
    assert_eq!(groups[0].turn.text, "first between second");
}
