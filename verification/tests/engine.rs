use phrasewatch::engine::{check_can_listen, heard, heard_at, FILE_SOURCE, LIVE_SOURCE, NO_MODELS};
use phrasewatch::log::{blank, split_lines};
use phrasewatch::matcher::Debouncer;
use phrasewatch::models::{
    content_length, fetch_plan, models_ready, parse_u64, AppConfig, FetchStep, MODELS_MISSING,
};

fn strings(v: &[&str]) -> Vec<String> {
    v.iter().map(|s| s.to_string()).collect()
}

#[test]
fn heard_reports_the_match_unless_held_back() {
    let phrases = strings(&["sorry", "i'm sorry"]);
    let mut d = Debouncer::new(8_000_000_000);
    assert_eq!(heard_at(&mut d, "Well, I'm sorry.", &phrases, 1_000_000_000), Some("i'm sorry"));
    assert_eq!(heard_at(&mut d, "i am sorry", &phrases, 2_000_000_000), None);
    assert_eq!(heard_at(&mut d, "sorry", &phrases, 2_000_000_000), Some("sorry"));
    assert_eq!(heard_at(&mut d, "nice weather", &phrases, 3_000_000_000), None);
    assert_eq!(heard_at(&mut d, "I'm sorry", &phrases, 9_000_000_000), Some("i'm sorry"));
    let mut fresh = Debouncer::new(60_000_000_000);
    assert_eq!(heard(&mut fresh, "sorry about that", &phrases), Some("sorry"));
    assert_eq!(heard(&mut fresh, "SORRY", &phrases), None);
}

#[test]
fn listening_needs_models() {
    assert_eq!(check_can_listen(true), Ok(()));
    assert_eq!(check_can_listen(false), Err(NO_MODELS.to_string()));
    assert_eq!(NO_MODELS, "models not downloaded");
    assert_eq!(FILE_SOURCE, "asr");
    assert_eq!(LIVE_SOURCE, "vad+asr");
}

#[test]
fn default_config() {
    let cfg = AppConfig::default();
    assert_eq!(cfg.phrases, strings(&["i'm sorry", "i am sorry"]));
    assert!(cfg.confirm_with_asr);
    assert_eq!(cfg.debounce_ns, 8_000_000_000);
    assert!(cfg.notify);
}

#[test]
fn fetch_plans() {
    assert_eq!(fetch_plan(true, false, false), vec![FetchStep::Progress(100)]);
    assert_eq!(
        fetch_plan(false, false, false),
        vec![FetchStep::Progress(5), FetchStep::DownloadVad, FetchStep::Progress(25), FetchStep::DownloadWhisper, FetchStep::Unpack, FetchStep::RemoveArchive, FetchStep::Progress(100), FetchStep::Recheck]
    );
    assert_eq!(fetch_plan(false, true, true), vec![FetchStep::Progress(25), FetchStep::Progress(100), FetchStep::Recheck]);
    assert_eq!(
        fetch_plan(false, true, false),
        vec![FetchStep::Progress(25), FetchStep::DownloadWhisper, FetchStep::Unpack, FetchStep::RemoveArchive, FetchStep::Progress(100), FetchStep::Recheck]
    );
    assert_eq!(MODELS_MISSING, "models still missing after download");
}

#[test]
fn missing_models_are_not_ready() {
    assert!(!models_ready("/nonexistent/phrasewatch-models-test"));
}

#[test]
fn content_length_parsing() {
    assert_eq!(parse_u64("0"), Some(0));
    assert_eq!(parse_u64("+42"), Some(42));
    assert_eq!(parse_u64("18446744073709551615"), Some(u64::MAX));
    assert_eq!(parse_u64("18446744073709551616"), None);
    assert_eq!(parse_u64("99999999999999999999x"), None);
    assert_eq!(parse_u64(""), None);
    assert_eq!(parse_u64("+"), None);
    assert_eq!(parse_u64("-1"), None);
    assert_eq!(parse_u64(" 7"), None);
    assert_eq!(parse_u64("12a"), None);
    assert_eq!(content_length(Some("1024")), 1024);
    assert_eq!(content_length(Some("lots")), 0);
    assert_eq!(content_length(None), 0);
}

#[test]
fn log_lines_split_like_bufread() {
    let lines = split_lines(b"{\"a\":1}\n\r\n  \nlast\r\n\nend\r");
    let expect: Vec<Vec<u8>> = vec![
        b"{\"a\":1}".to_vec(),
        b"".to_vec(),
        b"  ".to_vec(),
        b"last".to_vec(),
        b"".to_vec(),
        b"end\r".to_vec(),
    ];
    assert_eq!(lines, expect);
    assert!(split_lines(b"").is_empty());
    assert_eq!(split_lines(b"x\n"), vec![b"x".to_vec()]);
    assert_eq!(split_lines(b"\n"), vec![b"".to_vec()]);
}

#[test]
fn blank_lines() {
    assert!(blank(""));
    assert!(blank(" \t\u{a0}\u{3000}"));
    assert!(!blank(" x "));
}
