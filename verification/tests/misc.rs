use phrasewatch::engine::notification_script;
use phrasewatch::models::{
    download_percent, int8_whisper_files, model_files, models_dir_given, models_ready_given,
    vad_file, support_dir_in, whisper_paths_given, whisper_progress,
};
use phrasewatch::updates::{check_updates_notice, update_notice, CHECK_FAILED};

#[test]
fn notification_script_escapes_quotes_and_backslashes() {
    assert_eq!(
        notification_script("i'm sorry"),
        "display notification \"You said “i'm sorry”\" with title \"PhraseWatch\" sound name \"Ping\""
    );
    assert_eq!(
        notification_script("a\"b\\c"),
        "display notification \"You said “a\\\"b\\\\c”\" with title \"PhraseWatch\" sound name \"Ping\""
    );
}

#[test]
fn update_notice_messages() {
    assert_eq!(
        update_notice("0.3.1", Some("v0.3.1"), Some("https://x")),
        "PhraseWatch 0.3.1 is the latest release."
    );
    assert_eq!(
        update_notice("0.3.1", Some("vv0.3.1"), None),
        "PhraseWatch 0.3.1 is the latest release."
    );
    assert_eq!(
        update_notice("0.3.1", Some("v0.4.0"), Some("https://x")),
        "A newer version (v0.4.0) is available.\nhttps://x"
    );
    assert_eq!(
        update_notice("0.3.1", None, None),
        "A newer version (unknown) is available.\nhttps://github.com/jackaldenryan/phrase-watch/releases/latest"
    );
}

#[test]
fn model_paths() {
    let (enc, dec, tok) = whisper_paths_given("/m", true, false);
    assert_eq!(enc, "/m/sherpa-onnx-whisper-tiny.en/tiny.en-encoder.int8.onnx");
    assert_eq!(dec, "/m/sherpa-onnx-whisper-tiny.en/tiny.en-decoder.onnx");
    assert_eq!(tok, "/m/sherpa-onnx-whisper-tiny.en/tiny.en-tokens.txt");
    assert_eq!(support_dir_in(Some("/data")), "/data/PhraseWatch");
    assert_eq!(support_dir_in(None), "./PhraseWatch");
}

#[test]
fn progress_arithmetic() {
    assert_eq!(download_percent(50, 200), 25);
    assert_eq!(download_percent(200, 200), 100);
    assert_eq!(download_percent(300, 100), 44);
    assert_eq!(whisper_progress(0), 25);
    assert_eq!(whisper_progress(100), 95);
    assert_eq!(whisper_progress(50), 60);
}

#[test]
fn update_check_reads_the_reply() {
    let reply = "{\"tag_name\": \"v0.4.0\", \"html_url\": \"https://x/r\", \"n\": 3}";
    assert_eq!(
        check_updates_notice("0.3.1", Some(reply)),
        "A newer version (v0.4.0) is available.\nhttps://x/r"
    );
    assert_eq!(
        check_updates_notice("0.4.0", Some(reply)),
        "PhraseWatch 0.4.0 is the latest release."
    );
    assert_eq!(
        check_updates_notice("0.3.1", Some("{\"tag_name\": 4}")),
        "A newer version (unknown) is available.\nhttps://github.com/jackaldenryan/phrase-watch/releases/latest"
    );
    assert_eq!(
        check_updates_notice("0.3.1", Some("not json")),
        "A newer version (unknown) is available.\nhttps://github.com/jackaldenryan/phrase-watch/releases/latest"
    );
    assert_eq!(check_updates_notice("0.3.1", None), CHECK_FAILED);
    assert_eq!(
        CHECK_FAILED,
        "Could not check GitHub. Open https://github.com/jackaldenryan/phrase-watch/releases/latest"
    );
}

#[test]
fn models_dir_preference() {
    assert_eq!(models_dir_given(Some("/env"), Some("/b"), true, "/r", true, "/s"), "/env");
    assert_eq!(models_dir_given(None, Some("/b"), true, "/r", true, "/s"), "/b");
    assert_eq!(models_dir_given(None, Some("/b"), false, "/r", true, "/s"), "/r");
    assert_eq!(models_dir_given(None, None, true, "/r", false, "/s"), "/s/models");
}

#[test]
fn probed_model_files() {
    assert_eq!(vad_file("/m"), "/m/silero_vad.onnx");
    let (enc, dec) = int8_whisper_files("/m");
    assert_eq!(enc, "/m/sherpa-onnx-whisper-tiny.en/tiny.en-encoder.int8.onnx");
    assert_eq!(dec, "/m/sherpa-onnx-whisper-tiny.en/tiny.en-decoder.int8.onnx");
    let (vad, enc, dec, tok) = model_files("/m", false, true);
    assert_eq!(vad, "/m/silero_vad.onnx");
    assert_eq!(enc, "/m/sherpa-onnx-whisper-tiny.en/tiny.en-encoder.onnx");
    assert_eq!(dec, "/m/sherpa-onnx-whisper-tiny.en/tiny.en-decoder.int8.onnx");
    assert_eq!(tok, "/m/sherpa-onnx-whisper-tiny.en/tiny.en-tokens.txt");
    assert!(models_ready_given(true, true, true, true));
    assert!(!models_ready_given(true, true, false, true));
    assert!(!models_ready_given(false, true, true, true));
}
