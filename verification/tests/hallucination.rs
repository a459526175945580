use meetily_speaker::hallucination::{audit_counts, garbage_verdict};

#[test]
fn counts_replacement_characters_and_scripts() {
    let c = audit_counts("ao aantly заг except13 Ple\u{FFFD}\u{FFFD}\u{FFFD} Select patrim");
    assert_eq!(c.fffd, 3);
    assert_eq!(c.non_latin, 3);
    assert_eq!(c.tokens, 7);
    assert_eq!(c.loop_count, 1);
}

#[test]
fn latin_accents_punctuation_and_emoji_are_not_suspect() {
    let c = audit_counts("It's a café résumé — naïve, but “fine” — Mr. Oñate said: costs, 42%, and more. 😀 🎉");
    assert_eq!(c.non_latin, 0);
    assert_eq!(c.fffd, 0);
}

#[test]
fn cjk_and_hangul_count_as_suspect() {
    assert_eq!(audit_counts("we ship the 抖音 app now").non_latin, 2);
    assert_eq!(audit_counts("oppa 그렇ets ob 사람이").non_latin, 5);
}

#[test]
fn loop_count_is_the_top_token_multiplicity() {
    let text = "Okay. ".repeat(40);
    let c = audit_counts(text.trim());
    assert_eq!(c.tokens, 40);
    assert_eq!(c.loop_count, 40);
    let mixed = audit_counts("a b a c a b");
    assert_eq!(mixed.loop_count, 3);
    // Under MIN_LOOP_TOKENS tokens the loop count stays 0.
    assert_eq!(audit_counts("yeah yeah yeah yeah yeah").loop_count, 0);
    assert_eq!(audit_counts("yeah yeah yeah yeah yeah yeah").loop_count, 6);
}

#[test]
fn empty_text_counts_nothing() {
    let c = audit_counts("");
    assert_eq!((c.non_latin, c.fffd, c.tokens, c.loop_count), (0, 0, 0, 0));
}

#[test]
fn verdict_flags_salad_replacement_chars_and_loops() {
    assert!(garbage_verdict(&audit_counts("Stud Derekまた goloper exception您 para capacities"), false));
    assert!(garbage_verdict(&audit_counts("oppa 그렇ets ob 사람이 сноваなんだ advantages"), false));
    assert!(garbage_verdict(&audit_counts("ao aantly заг except13 Ple\u{FFFD}\u{FFFD}\u{FFFD} Select patrim"), false));
    assert!(garbage_verdict(&audit_counts("Okay. ".repeat(40).trim()), false));
    assert!(garbage_verdict(&audit_counts("Yes. ".repeat(50).trim()), false));
}

#[test]
fn verdict_passes_clean_rows() {
    let clean = "It's a café résumé — naïve, but “fine” — Mr. Oñate said: costs, 42%, and more.";
    assert!(!garbage_verdict(&audit_counts(clean), false));
    assert!(!garbage_verdict(&audit_counts("great job team 😀 🎉 done"), false));
    assert!(!garbage_verdict(&audit_counts("we ship the 抖音 app now"), false));
    assert!(!garbage_verdict(&audit_counts("yeah yeah yeah yeah yeah yeah"), false));
    assert!(!garbage_verdict(&audit_counts(""), false));
}

#[test]
fn verdict_loop_needs_half_of_the_tokens() {
    // Ten repeats among twenty-one tokens stay under half.
    let mut words: Vec<String> = vec!["okay".to_string(); 10];
    for i in 0..11 {
        words.push(format!("w{i}"));
    }
    assert!(!garbage_verdict(&audit_counts(&words.join(" ")), false));
    // Ten among twenty is half: a loop.
    words.pop();
    assert!(garbage_verdict(&audit_counts(&words.join(" ")), false));
}

#[test]
fn verdict_takes_the_absurd_rate() {
    let text = (0..40).map(|i| format!("word{i}")).collect::<Vec<_>>().join(" ");
    assert!(!garbage_verdict(&audit_counts(&text), false));
    assert!(garbage_verdict(&audit_counts(&text), true));
}
