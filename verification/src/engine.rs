//! The listening engine's decisions: which transcribed speech counts as a
//! hit, whether listening may start, and the notification for a hit.
use crate::matcher::{
    holds_back, is_best, lemma_best_is_unique, match_phrase, normalized, normalized_all, Debouncer,
};
use crate::text::{chars_of, replace_char, replace_chars, string_of};
use vstd::prelude::*;

verus! {

/// The source of a hit found in a recorded file.
pub const FILE_SOURCE: &'static str = "asr";

/// The source of a hit heard while listening.
pub const LIVE_SOURCE: &'static str = "vad+asr";

/// Why listening cannot start.
pub const NO_MODELS: &'static str = "models not downloaded";

/// Listening may start only once the models are ready.
pub fn check_can_listen(models_ready: bool) -> (r: Result<(), String>)
    ensures
        models_ready ==> r is Ok,
        !models_ready ==> r is Err && r->Err_0@ == NO_MODELS@,
{
    if models_ready {
        Ok(())
    } else {
        let mut msg = String::new();
        msg.append(NO_MODELS);
        Err(msg)
    }
}

/// The position of the phrase that `match_phrase` reports for
/// `transcript`, if there is one.
pub open spec fn best_match(transcript: Seq<char>, phrases: Seq<String>) -> Option<int> {
    if exists|j: int| is_best(normalized(transcript), normalized_all(phrases), j) {
        Some(choose|j: int| is_best(normalized(transcript), normalized_all(phrases), j))
    } else {
        None
    }
}

/// What hearing `transcript` at time `now` does, when the debouncer had let
/// the phrases `before` through and has window `window`: no phrase matches
/// and nothing is heard; or the best match is held back and nothing is
/// heard; or the best match is heard and recorded at `now`.
pub open spec fn hears(
    before: Map<Seq<char>, int>,
    window: int,
    transcript: Seq<char>,
    phrases: Seq<String>,
    now: int,
    heard: Option<Seq<char>>,
    after: Map<Seq<char>, int>,
) -> bool {
    match best_match(transcript, phrases) {
        None => heard is None && after == before,
        Some(j) => {
            let key = normalized(phrases[j]@);
            if holds_back(before, window, key, now) {
                heard is None && after == before
            } else {
                heard == Some(phrases[j]@) && after == before.insert(key, now)
            }
        },
    }
}

pub open spec fn str_view(r: Option<&str>) -> Option<Seq<char>> {
    match r {
        Some(p) => Some(p@),
        None => None,
    }
}

/// Decides whether the speech transcribed as `transcript` at `now_ns` is a
/// hit: the phrase it matches, unless the debouncer holds it back.
pub fn heard_at<'a>(debouncer: &mut Debouncer, transcript: &str, phrases: &'a [String], now_ns: u64) -> (r: Option<&'a str>)
    requires
        old(debouncer).wf(),
    ensures
        final(debouncer).wf(),
        final(debouncer).window() == old(debouncer).window(),
        hears(
            old(debouncer).last_seen(),
            old(debouncer).window(),
            transcript@,
            phrases@,
            now_ns as int,
            str_view(r),
            final(debouncer).last_seen(),
        ),
{
    let ghost hay = normalized(transcript@);
    let ghost ns = normalized_all(phrases@);
    match match_phrase(transcript, phrases) {
        None => {
            proof {
                if exists|j: int| is_best(hay, ns, j) {
                    let j = choose|j: int| is_best(hay, ns, j);
                    assert(0 <= j < phrases@.len());
                }
            }
            None
        },
        Some(p) => {
            proof {
                let j = choose|j: int| is_best(hay, ns, j) && p@ == phrases@[j]@;
                lemma_best_is_unique(hay, ns, j, choose|j: int| is_best(hay, ns, j));
            }
            if debouncer.allow_at(p, now_ns) {
                Some(p)
            } else {
                None
            }
        },
    }
}

/// Decides whether the speech transcribed as `transcript` just now is a hit,
/// as `heard_at` does at the debouncer's reading of the clock.
pub fn heard<'a>(debouncer: &mut Debouncer, transcript: &str, phrases: &'a [String]) -> (r: Option<&'a str>)
    requires
        old(debouncer).wf(),
    ensures
        final(debouncer).wf(),
        final(debouncer).window() == old(debouncer).window(),
        exists|now: u64|
            hears(
                old(debouncer).last_seen(),
                old(debouncer).window(),
                transcript@,
                phrases@,
                now as int,
                str_view(r),
                final(debouncer).last_seen(),
            ),
{
    let now = debouncer.clock_ns();
    heard_at(debouncer, transcript, phrases, now)
}

/// `s` quoted for an AppleScript string literal: each backslash doubled, then
/// each double quote preceded by a backslash.
pub open spec fn applescript_escaped(s: Seq<char>) -> Seq<char> {
    replace_char(replace_char(s, '\\', seq!['\\', '\\']), '"', seq!['\\', '"'])
}

/// The notification text for a phrase: You said “phrase”.
pub open spec fn notification_body(phrase: Seq<char>) -> Seq<char> {
    "You said \u{201c}"@ + phrase + "\u{201d}"@
}

/// The AppleScript that shows the notification for `phrase`, titled
/// "PhraseWatch", with the "Ping" sound.
pub fn notification_script(phrase: &str) -> (r: String)
    ensures
        r@ == "display notification \""@ + applescript_escaped(notification_body(phrase@))
            + "\" with title \"PhraseWatch\" sound name \"Ping\""@,
{
    let mut body = String::new();
    body.append("You said \u{201c}");
    body.append(phrase);
    body.append("\u{201d}");
    let escaped_backslash: Vec<char> = vec!['\\', '\\'];
    let escaped_quote: Vec<char> = vec!['\\', '"'];
    let once = replace_chars(&chars_of(body.as_str()), '\\', &escaped_backslash);
    let twice = replace_chars(&once, '"', &escaped_quote);
    assert(escaped_backslash@ =~= seq!['\\', '\\']);
    assert(escaped_quote@ =~= seq!['\\', '"']);
    let mut script = String::new();
    script.append("display notification \"");
    script.append(string_of(&twice).as_str());
    script.append("\" with title \"PhraseWatch\" sound name \"Ping\"");
    script
}

} // verus!
