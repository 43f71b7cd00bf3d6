//! Where the app keeps its files: the support directory, the configuration
//! and hit log, the speech-model files, and the progress of fetching them.
use crate::text::chars_of;
use vstd::prelude::*;

verus! {

pub const WHISPER_DIR: &'static str = "sherpa-onnx-whisper-tiny.en";

pub const VAD_NAME: &'static str = "silero_vad.onnx";

/// The user's settings: the phrases to watch for, whether speech is
/// confirmed by transcription, how long a phrase is held back after a hit
/// (in nanoseconds), and whether hits raise a notification.
#[derive(Clone, Debug)]
pub struct AppConfig {
    pub phrases: Vec<String>,
    pub confirm_with_asr: bool,
    pub debounce_ns: u64,
    pub notify: bool,
}

impl Default for AppConfig {
    /// Watch for "i'm sorry" and "i am sorry", confirm by transcription,
    /// hold a phrase back for 8 seconds, and notify.
    fn default() -> (r: Self)
        ensures
            r.phrases@.len() == 2,
            r.phrases@[0]@ == "i'm sorry"@,
            r.phrases@[1]@ == "i am sorry"@,
            r.confirm_with_asr,
            r.debounce_ns == 8_000_000_000,
            r.notify,
    {
        let mut first = String::new();
        first.append("i'm sorry");
        let mut second = String::new();
        second.append("i am sorry");
        let mut phrases: Vec<String> = Vec::new();
        phrases.push(first);
        phrases.push(second);
        AppConfig { phrases, confirm_with_asr: true, debounce_ns: 8_000_000_000, notify: true }
    }
}

/// What `Path::join` gives for `name` under `base`, as text.
pub uninterp spec fn joined_path(base: Seq<char>, name: Seq<char>) -> Seq<char>;

/// `Path::join`: the path `name` adjoined to `base` (`name` replaces `base`
/// when it is absolute). The contract claims only that the result is a
/// function of the two paths (named `joined_path`); where separators go is
/// not stated. Paths are handled as UTF-8 text (`to_string_lossy`).
#[verifier::external_body]
fn join_path(base: &str, name: &str) -> (r: String)
    ensures
        r@ == joined_path(base@, name@),
{
    std::path::Path::new(base).join(name).to_string_lossy().into_owned()
}

/// `Path::exists`: whether something is at `path` on disk now. Nothing is
/// claimed of the answer.
#[verifier::external_body]
fn path_exists(path: &str) -> bool {
    std::path::Path::new(path).exists()
}

/// `dirs::data_dir`: the user's data directory, when the platform and the
/// environment name one, as text. Nothing is claimed of the answer.
#[verifier::external_body]
fn data_dir() -> Option<String> {
    match dirs::data_dir() {
        Some(p) => Some(p.to_string_lossy().into_owned()),
        None => None,
    }
}

/// The app's directory under the data directory `data_dir`, or under the
/// current directory when there is none.
pub open spec fn support_dir_under(data_dir: Option<Seq<char>>) -> Seq<char> {
    joined_path(
        match data_dir {
            Some(d) => d,
            None => "."@,
        },
        "PhraseWatch"@,
    )
}

/// The app's directory, given the user's data directory (if any).
pub fn support_dir_in(data_dir: Option<&str>) -> (r: String)
    ensures
        r@ == support_dir_under(
            match data_dir {
                Some(d) => Some(d@),
                None => None,
            },
        ),
{
    match data_dir {
        Some(d) => join_path(d, "PhraseWatch"),
        None => join_path(".", "PhraseWatch"),
    }
}

/// The app's directory, "PhraseWatch" under the user's data directory.
pub fn support_dir() -> (r: String)
    ensures
        exists|d: Option<Seq<char>>| r@ == support_dir_under(d),
{
    match data_dir() {
        Some(d) => support_dir_in(Some(d.as_str())),
        None => support_dir_in(None),
    }
}

/// The models directory: the one named by the environment (`env_dir`) if
/// any; else the app bundle's models directory (`bundled`) when it holds the
/// voice-activity model; else the source tree's `repo` directory when it
/// does; else "models" in the app's directory `support`.
pub open spec fn models_dir_choice(
    env_dir: Option<Seq<char>>,
    bundled: Option<Seq<char>>,
    bundled_has_vad: bool,
    repo: Seq<char>,
    repo_has_vad: bool,
    support: Seq<char>,
) -> Seq<char> {
    match env_dir {
        Some(d) => d,
        None => if bundled is Some && bundled_has_vad {
            bundled->0
        } else if repo_has_vad {
            repo
        } else {
            joined_path(support, "models"@)
        },
    }
}

pub open spec fn opt_view(o: Option<&str>) -> Option<Seq<char>> {
    match o {
        Some(s) => Some(s@),
        None => None,
    }
}

fn owned(s: &str) -> (r: String)
    ensures
        r@ == s@,
{
    let mut r = String::new();
    r.append(s);
    r
}

/// The models directory, given which candidates hold the voice-activity
/// model.
pub fn models_dir_given(
    env_dir: Option<&str>,
    bundled: Option<&str>,
    bundled_has_vad: bool,
    repo: &str,
    repo_has_vad: bool,
    support: &str,
) -> (r: String)
    ensures
        r@ == models_dir_choice(opt_view(env_dir), opt_view(bundled), bundled_has_vad, repo@, repo_has_vad, support@),
{
    match env_dir {
        Some(d) => owned(d),
        None => match bundled {
            Some(b) if bundled_has_vad => owned(b),
            _ => if repo_has_vad {
                owned(repo)
            } else {
                join_path(support, "models")
            },
        },
    }
}

/// The voice-activity model's file in the directory `dir`.
pub fn vad_file(dir: &str) -> (r: String)
    ensures
        r@ == joined_path(dir@, VAD_NAME@),
{
    join_path(dir, VAD_NAME)
}

/// The models directory, looking on disk for the voice-activity model in
/// the bundled and source-tree candidates (the files that `vad_file` names
/// in each; only these are probed, and the bundled one first).
pub fn models_dir_in(env_dir: Option<&str>, bundled: Option<&str>, repo: &str, support: &str) -> (r: String)
    ensures
        exists|b: bool, s: bool|
            r@ == models_dir_choice(opt_view(env_dir), opt_view(bundled), b, repo@, s, support@),
{
    if env_dir.is_some() {
        return models_dir_given(env_dir, bundled, false, repo, false, support);
    }
    let bundled_has_vad = match bundled {
        Some(b) => path_exists(vad_file(b).as_str()),
        None => false,
    };
    let repo_has_vad = if bundled_has_vad {
        false
    } else {
        path_exists(vad_file(repo).as_str())
    };
    models_dir_given(env_dir, bundled, bundled_has_vad, repo, repo_has_vad, support)
}

/// The configuration file, "config.json" in the app's directory.
pub fn config_path() -> (r: String)
    ensures
        exists|d: Option<Seq<char>>| r@ == joined_path(support_dir_under(d), "config.json"@),
{
    join_path(support_dir().as_str(), "config.json")
}

/// The log of hits, "hits.jsonl" in the app's directory.
pub fn hits_path() -> (r: String)
    ensures
        exists|d: Option<Seq<char>>| r@ == joined_path(support_dir_under(d), "hits.jsonl"@),
{
    join_path(support_dir().as_str(), "hits.jsonl")
}

/// The Whisper encoder, decoder and token files under `root`, choosing the
/// int8 encoder and decoder where they are present.
pub open spec fn whisper_files(root: Seq<char>, int8_encoder: bool, int8_decoder: bool) -> (Seq<char>, Seq<char>, Seq<char>) {
    let d = joined_path(root, WHISPER_DIR@);
    (
        joined_path(
            d,
            if int8_encoder {
                "tiny.en-encoder.int8.onnx"@
            } else {
                "tiny.en-encoder.onnx"@
            },
        ),
        joined_path(
            d,
            if int8_decoder {
                "tiny.en-decoder.int8.onnx"@
            } else {
                "tiny.en-decoder.onnx"@
            },
        ),
        joined_path(d, "tiny.en-tokens.txt"@),
    )
}

/// The Whisper model files under `root`, given whether the int8 encoder and
/// decoder are present.
pub fn whisper_paths_given(root: &str, int8_encoder: bool, int8_decoder: bool) -> (r: (String, String, String))
    ensures
        (r.0@, r.1@, r.2@) == whisper_files(root@, int8_encoder, int8_decoder),
{
    let d = join_path(root, WHISPER_DIR);
    let enc = if int8_encoder {
        join_path(d.as_str(), "tiny.en-encoder.int8.onnx")
    } else {
        join_path(d.as_str(), "tiny.en-encoder.onnx")
    };
    let dec = if int8_decoder {
        join_path(d.as_str(), "tiny.en-decoder.int8.onnx")
    } else {
        join_path(d.as_str(), "tiny.en-decoder.onnx")
    };
    (enc, dec, join_path(d.as_str(), "tiny.en-tokens.txt"))
}

/// The int8 Whisper encoder and decoder files under `root`, whose presence
/// decides which encoder and decoder are used.
pub fn int8_whisper_files(root: &str) -> (r: (String, String))
    ensures
        r.0@ == whisper_files(root@, true, true).0,
        r.1@ == whisper_files(root@, true, true).1,
{
    let d = join_path(root, WHISPER_DIR);
    (join_path(d.as_str(), "tiny.en-encoder.int8.onnx"), join_path(d.as_str(), "tiny.en-decoder.int8.onnx"))
}

/// The Whisper model files under `root`: the int8 encoder and decoder where
/// they are on disk, the plain ones otherwise. The files probed are those
/// that `int8_whisper_files` names; the choice is `whisper_paths_given`'s.
pub fn whisper_paths(root: &str) -> (r: (String, String, String))
    ensures
        exists|e: bool, d: bool| (r.0@, r.1@, r.2@) == whisper_files(root@, e, d),
{
    let (int8_enc, int8_dec) = int8_whisper_files(root);
    let int8_encoder = path_exists(int8_enc.as_str());
    let int8_decoder = path_exists(int8_dec.as_str());
    whisper_paths_given(root, int8_encoder, int8_decoder)
}

/// The four files the models need under `root`, given whether the int8
/// encoder and decoder are present: the voice-activity model, then the
/// Whisper encoder, decoder and tokens.
pub fn model_files(root: &str, int8_encoder: bool, int8_decoder: bool) -> (r: (String, String, String, String))
    ensures
        r.0@ == joined_path(root@, VAD_NAME@),
        (r.1@, r.2@, r.3@) == whisper_files(root@, int8_encoder, int8_decoder),
{
    let (enc, dec, tok) = whisper_paths_given(root, int8_encoder, int8_decoder);
    (vad_file(root), enc, dec, tok)
}

/// Whether the models are ready, given whether each of the four files that
/// `model_files` names is present: all of them must be.
pub fn models_ready_given(vad: bool, encoder: bool, decoder: bool, tokens: bool) -> (r: bool)
    ensures
        r == (vad && encoder && decoder && tokens),
{
    vad && encoder && decoder && tokens
}

/// Whether all four model files are on disk under `root`: the files that
/// `model_files` names, with the int8 encoder and decoder chosen where
/// `int8_whisper_files` finds them, each probed once, and the answer that
/// `models_ready_given` gives. The answers of the probes depend on the disk,
/// so nothing is stated of the result.
pub fn models_ready(root: &str) -> bool {
    let (int8_enc, int8_dec) = int8_whisper_files(root);
    let int8_encoder = path_exists(int8_enc.as_str());
    let int8_decoder = path_exists(int8_dec.as_str());
    let (vad, enc, dec, tok) = model_files(root, int8_encoder, int8_decoder);
    let vad_present = path_exists(vad.as_str());
    let encoder_present = path_exists(enc.as_str());
    let decoder_present = path_exists(dec.as_str());
    let tokens_present = path_exists(tok.as_str());
    models_ready_given(vad_present, encoder_present, decoder_present, tokens_present)
}

/// The message when the models are still incomplete after fetching them.
pub const MODELS_MISSING: &'static str = "models still missing after download";

/// One step of fetching the speech models.
#[derive(Clone, Copy, Debug, PartialEq, Eq, Structural)]
pub enum FetchStep {
    /// Report this overall percentage.
    Progress(u8),
    /// Download the voice-activity model to its place under the root.
    DownloadVad,
    /// Download the Whisper archive under the root, reporting its progress
    /// through `whisper_progress`.
    DownloadWhisper,
    /// Unpack the Whisper archive into the root.
    Unpack,
    /// Delete the archive (a failure is ignored).
    RemoveArchive,
    /// Fail with `MODELS_MISSING` unless the models are now ready.
    Recheck,
}

/// The steps that fetch the models, given whether they are all present
/// (`ready`), whether the voice-activity model is present, and whether the
/// Whisper encoder is present. A failing download or unpack ends the run.
pub open spec fn fetch_steps(ready: bool, vad_present: bool, encoder_present: bool) -> Seq<FetchStep> {
    if ready {
        seq![FetchStep::Progress(100)]
    } else {
        (if vad_present {
            Seq::empty()
        } else {
            seq![FetchStep::Progress(5), FetchStep::DownloadVad]
        }) + seq![FetchStep::Progress(25)] + (if encoder_present {
            Seq::empty()
        } else {
            seq![FetchStep::DownloadWhisper, FetchStep::Unpack, FetchStep::RemoveArchive]
        }) + seq![FetchStep::Progress(100), FetchStep::Recheck]
    }
}

/// The plan for fetching the models, as `fetch_steps` gives it.
pub fn fetch_plan(ready: bool, vad_present: bool, encoder_present: bool) -> (r: Vec<FetchStep>)
    ensures
        r@ == fetch_steps(ready, vad_present, encoder_present),
{
    let mut r: Vec<FetchStep> = Vec::new();
    if ready {
        r.push(FetchStep::Progress(100));
        assert(r@ =~= fetch_steps(ready, vad_present, encoder_present));
        return r;
    }
    if !vad_present {
        r.push(FetchStep::Progress(5));
        r.push(FetchStep::DownloadVad);
    }
    r.push(FetchStep::Progress(25));
    if !encoder_present {
        r.push(FetchStep::DownloadWhisper);
        r.push(FetchStep::Unpack);
        r.push(FetchStep::RemoveArchive);
    }
    r.push(FetchStep::Progress(100));
    r.push(FetchStep::Recheck);
    assert(r@ =~= fetch_steps(ready, vad_present, encoder_present));
    r
}

/// Whether `c` is an ASCII decimal digit.
pub open spec fn is_digit(c: char) -> bool {
    '0' <= c && c <= '9'
}

/// The number written by the decimal digits `s`.
pub open spec fn digits_value(s: Seq<char>) -> int
    decreases s.len(),
{
    if s.len() == 0 {
        0
    } else {
        digits_value(s.drop_last()) * 10 + (s.last() as int - '0' as int)
    }
}

/// `s` without a leading `+`, if it has one.
pub open spec fn without_plus(s: Seq<char>) -> Seq<char> {
    if s.len() > 0 && s[0] == '+' {
        s.drop_first()
    } else {
        s
    }
}

/// What `str::parse::<u64>` gives for `s`: an optional `+` followed by one
/// or more decimal digits is read as their value if it fits in a `u64`;
/// anything else is refused.
pub open spec fn parsed_u64(s: Seq<char>) -> Option<int> {
    let d = without_plus(s);
    if d.len() > 0 && (forall|i: int| 0 <= i < d.len() ==> is_digit(#[trigger] d[i])) && digits_value(d)
        <= u64::MAX {
        Some(digits_value(d))
    } else {
        None
    }
}

proof fn lemma_digits_value_grows(s: Seq<char>, j: int, k: int)
    requires
        0 <= j <= k <= s.len(),
        forall|i: int| 0 <= i < s.len() ==> is_digit(#[trigger] s[i]),
    ensures
        0 <= digits_value(s.subrange(0, j)) <= digits_value(s.subrange(0, k)),
    decreases k,
{
    if k > 0 {
        let m = if j < k {
            j
        } else {
            k - 1
        };
        lemma_digits_value_grows(s, m, k - 1);
        assert(s.subrange(0, k).drop_last() =~= s.subrange(0, k - 1));
        assert(is_digit(s[k - 1]));
    }
}

/// Reads `s` as a `u64` in decimal, as `str::parse::<u64>` does.
pub fn parse_u64(s: &str) -> (r: Option<u64>)
    ensures
        match r {
            Some(v) => parsed_u64(s@) == Some(v as int),
            None => parsed_u64(s@) is None,
        },
{
    let cs = chars_of(s);
    let start: usize = if cs.len() > 0 && cs[0] == '+' {
        1
    } else {
        0
    };
    let ghost d = cs@.subrange(start as int, cs@.len() as int);
    assert(d =~= without_plus(s@));
    if start >= cs.len() {
        return None;
    }
    let mut v: u64 = 0;
    let mut i: usize = start;
    while i < cs.len()
        invariant
            cs@ == s@,
            start <= i <= cs.len(),
            d == cs@.subrange(start as int, cs@.len() as int),
            d == without_plus(s@),
            d.len() > 0,
            forall|k: int| 0 <= k < i - start ==> is_digit(#[trigger] d[k]),
            v == digits_value(d.subrange(0, i - start)),
        decreases cs.len() - i,
    {
        let c = cs[i];
        if !('0' <= c && c <= '9') {
            assert(!is_digit(d[i - start]));
            return None;
        }
        let digit: u64 = (c as u32 - '0' as u32) as u64;
        assert(d.subrange(0, i + 1 - start).drop_last() =~= d.subrange(0, i - start));
        assert(d[i - start] == c);
        if v > (u64::MAX - digit) / 10 {
            proof {
                assert(digits_value(d.subrange(0, i + 1 - start)) > u64::MAX) by (nonlinear_arith)
                    requires
                        digits_value(d.subrange(0, i + 1 - start)) == v * 10 + digit,
                        v > (u64::MAX - digit) / 10,
                        digit <= 9,
                ;
                if forall|k: int| 0 <= k < d.len() ==> is_digit(#[trigger] d[k]) {
                    lemma_digits_value_grows(d, i + 1 - start, d.len() as int);
                    assert(d.subrange(0, d.len() as int) =~= d);
                }
            }
            return None;
        }
        v = v * 10 + digit;
        i = i + 1;
    }
    assert(d.subrange(0, d.len() as int) =~= d);
    Some(v)
}

/// The length a download announces in its Content-Length header: the
/// header read as a `u64`, or 0 when it is missing or unreadable.
pub fn content_length(header: Option<&str>) -> (r: u64)
    ensures
        r == match header {
            Some(h) => match parsed_u64(h@) {
                Some(v) => v,
                None => 0,
            },
            None => 0,
        },
{
    match header {
        Some(h) => match parse_u64(h) {
            Some(v) => v,
            None => 0,
        },
        None => 0,
    }
}

/// Percentage of a download of `len` bytes done after `copied` bytes, cast
/// to a byte (so it wraps when more than `len` bytes arrive).
pub fn download_percent(copied: u64, len: u64) -> (r: u8)
    requires
        len > 0,
        copied <= u64::MAX / 100,
    ensures
        r == (copied * 100 / (len as int)) % 256,
{
    let p = copied * 100 / len;
    assert((p as u8) == p % 256) by (bit_vector);
    p as u8
}

/// Overall progress of fetching the models while the Whisper archive is
/// `p` percent downloaded: it spans 25% to 95%.
pub fn whisper_progress(p: u8) -> (r: u8)
    ensures
        r == 25 + (p as int) * 70 / 100,
        25 <= r <= 203,
{
    25 + (p as u16 * 70 / 100) as u8
}

} // verus!
