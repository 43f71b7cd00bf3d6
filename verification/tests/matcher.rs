use phrasewatch::matcher::{match_phrase, normalize, normalize_lowercased, regex_im, select_phrase, Debouncer};

fn strings(v: &[&str]) -> Vec<String> {
    v.iter().map(|s| s.to_string()).collect()
}

#[test]
fn normalizes_contraction() {
    assert_eq!(normalize("I'm sorry"), "i am sorry");
    assert_eq!(normalize("I’M SORRY!"), "i am sorry");
}

#[test]
fn matches_variants() {
    let phrases = strings(&["i'm sorry", "i am sorry"]);
    assert_eq!(
        match_phrase("yeah I'm sorry about that", &phrases),
        Some("i'm sorry")
    );
    assert!(match_phrase("the weather is nice today", &phrases).is_none());
}

#[test]
fn prefers_longer() {
    let phrases = strings(&["sorry", "i'm sorry"]);
    assert_eq!(
        match_phrase("I said I'm sorry", &phrases),
        Some("i'm sorry")
    );
}

#[test]
fn many_phrases() {
    let phrases = strings(&["i'm sorry", "i apologize", "my bad"]);
    assert_eq!(match_phrase("oh my bad dude", &phrases), Some("my bad"));
}

#[test]
fn matcher_normalizes_contraction() {
    assert_eq!(normalize("I'm sorry"), "i am sorry");
}

#[test]
fn matches_sorry() {
    let phrases = strings(&["i'm sorry", "i am sorry"]);
    assert_eq!(
        match_phrase("yeah I'm sorry about that", &phrases),
        Some("i'm sorry")
    );
    assert!(match_phrase("the weather is nice today", &phrases).is_none());
}

#[test]
fn normalize_collapses_punctuation_and_spaces() {
    assert_eq!(normalize("  Hello,   WORLD!!  42 "), "hello world 42");
    assert_eq!(normalize("...!!!"), "");
    assert_eq!(normalize(""), "");
    assert_eq!(normalize("café au lait"), "caf au lait");
}

#[test]
fn normalize_expands_only_standalone_im() {
    assert_eq!(normalize("I'm"), "i am");
    assert_eq!(normalize("him'm"), "him m");
    assert_eq!(normalize("I'mx"), "i mx");
    assert_eq!(normalize("x I’m."), "x i am");
}

#[test]
fn regex_im_rewrites_in_place() {
    assert_eq!(regex_im("i'm here, i’m there"), "i am here, i am there");
    assert_eq!(regex_im("hi'm"), "hi'm");
    assert_eq!(regex_im("I'm"), "I'm");
}

#[test]
fn normalize_lowercased_is_idempotent() {
    let once = normalize_lowercased("well,  i’m   sorry -- ok");
    assert_eq!(once, "well i am sorry ok");
    assert_eq!(normalize_lowercased(&once), once);
}

#[test]
fn match_requires_whole_words() {
    let phrases = strings(&["sorry"]);
    assert!(match_phrase("sorrynotsorry", &phrases).is_none());
    assert_eq!(match_phrase("so, SORRY.", &phrases), Some("sorry"));
}

#[test]
fn match_ties_go_to_the_first_phrase() {
    // "bad dude" is the longest phrase present; "my bad" and "bad do" tie.
    let phrases = strings(&["my bad", "oh my", "bad dude"]);
    assert_eq!(match_phrase("oh my bad dude", &phrases), Some("bad dude"));
    let phrases = strings(&["oh my", "my bad", "bad do"]);
    assert_eq!(match_phrase("oh my bad do", &phrases), Some("my bad"));
}

#[test]
fn match_ignores_empty_phrases_and_transcripts() {
    let phrases = strings(&["", "!!", "sorry"]);
    assert!(match_phrase("", &phrases).is_none());
    assert!(match_phrase("?!", &phrases).is_none());
    assert_eq!(match_phrase("sorry", &phrases), Some("sorry"));
}

#[test]
fn select_phrase_picks_longest_then_first() {
    let needles = strings(&["a", "a b", "b c", ""]);
    assert_eq!(select_phrase("a b c", &needles), Some(1));
    assert_eq!(select_phrase("c", &needles), None);
    assert_eq!(select_phrase("x a", &needles), Some(0));
}

#[test]
fn debouncer_holds_back_within_window() {
    let mut d = Debouncer::new(8_000_000_000);
    assert!(d.allow_at("I'm sorry", 1_000_000_000));
    assert!(!d.allow_at("i am sorry", 5_000_000_000));
    assert!(!d.allow_at("I’M SORRY", 8_999_000_000));
    assert!(d.allow_at("my bad", 8_999_000_000));
    assert!(d.allow_at("i'm sorry", 9_000_000_000));
    assert!(!d.allow_at("i'm sorry", 16_999_000_000));
    assert!(d.allow_at("i'm sorry", 17_000_000_000));
}

#[test]
fn debouncer_window_is_exact_to_the_nanosecond() {
    let mut d = Debouncer::new(8_000_000_000);
    assert!(d.allow_at("sorry", 2_000_000_000));
    assert!(!d.allow_at("sorry", 9_999_999_999));
    assert!(d.allow_at("sorry", 10_000_000_000));
}

#[test]
fn debouncer_with_zero_window_lets_everything_through() {
    let mut d = Debouncer::new(0);
    assert!(d.allow_at("sorry", 5_000_000));
    assert!(d.allow_at("sorry", 5_000_000));
    assert!(d.allow_at("sorry", 1_000_000));
}

#[test]
fn debouncer_clock_reads_allow_first_hit() {
    let mut d = Debouncer::new(60_000_000_000);
    assert!(d.allow("sorry"));
    assert!(!d.allow("Sorry!"));
}
