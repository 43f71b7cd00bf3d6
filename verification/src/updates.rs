//! What the update check tells the user, given GitHub's reply about the
//! latest release.
use crate::text::{chars_of, same_chars, trim_leading, trim_leading_chars};
use vstd::prelude::*;

verus! {

/// Where the releases are listed.
pub const RELEASES_URL: &'static str = "https://github.com/jackaldenryan/phrase-watch/releases/latest";

/// The message for the running version `current` when the latest release has
/// tag `tag` and page `url`: a newer version is announced unless the tag,
/// without its leading "v"s, is `current`.
pub open spec fn update_message(current: Seq<char>, tag: Seq<char>, url: Seq<char>) -> Seq<char> {
    if trim_leading(tag, 'v') != current {
        "A newer version ("@ + tag + ") is available.\n"@ + url
    } else {
        "PhraseWatch "@ + current + " is the latest release."@
    }
}

/// A newer version is announced exactly when the tag, without its leading
/// "v"s, differs from the running version; when they are the same, the
/// message says the running version is the latest.
pub proof fn lemma_newer_iff_different(current: Seq<char>, tag: Seq<char>, url: Seq<char>)
    ensures
        trim_leading(tag, 'v') == current ==> update_message(current, tag, url) == "PhraseWatch "@
            + current + " is the latest release."@,
        trim_leading(tag, 'v') != current ==> update_message(current, tag, url) == "A newer version ("@
            + tag + ") is available.\n"@ + url,
{
}

/// The message of the update check for the running version `current`, given
/// the tag and page of the latest release as found in the reply (an unknown
/// tag reads "unknown", a missing page is the releases page).
pub fn update_notice(current: &str, tag: Option<&str>, url: Option<&str>) -> (r: String)
    ensures
        r@ == update_message(
            current@,
            match tag {
                Some(t) => t@,
                None => "unknown"@,
            },
            match url {
                Some(u) => u@,
                None => RELEASES_URL@,
            },
        ),
{
    let tag = match tag {
        Some(t) => t,
        None => "unknown",
    };
    let url = match url {
        Some(u) => u,
        None => RELEASES_URL,
    };
    let mut msg = String::new();
    if !same_chars(&trim_leading_chars(&chars_of(tag), 'v'), &chars_of(current)) {
        msg.append("A newer version (");
        msg.append(tag);
        msg.append(") is available.\n");
        msg.append(url);
    } else {
        msg.append("PhraseWatch ");
        msg.append(current);
        msg.append(" is the latest release.");
    }
    msg
}

/// What the update check says when GitHub could not be reached.
pub const CHECK_FAILED: &'static str =
    "Could not check GitHub. Open https://github.com/jackaldenryan/phrase-watch/releases/latest";

/// The string member `key` of the JSON document `body`: present when `body`
/// parses as JSON, is an object, and has a member `key` that is a string.
pub uninterp spec fn json_text_member(body: Seq<char>, key: Seq<char>) -> Option<Seq<char>>;

/// `serde_json::from_str::<Value>` on `body` (a document that does not parse
/// counts as `null`), then `Value::get(key)` and `Value::as_str`. The result
/// is claimed only to be a function of `body` and `key`, named
/// `json_text_member`; what JSON text gives which member is not stated.
#[verifier::external_body]
fn json_text_field(body: &str, key: &str) -> (r: Option<String>)
    ensures
        match r {
            Some(t) => json_text_member(body@, key@) == Some(t@),
            None => json_text_member(body@, key@) is None,
        },
{
    let value: serde_json::Value = serde_json::from_str(body).unwrap_or_default();
    match value.get(key).and_then(|v| v.as_str()) {
        Some(t) => Some(t.to_string()),
        None => None,
    }
}

pub open spec fn option_view(o: Option<&str>) -> Option<Seq<char>> {
    match o {
        Some(s) => Some(s@),
        None => None,
    }
}

/// The message of the update check for the running version `current`, given
/// GitHub's reply about the latest release (`None` when the request failed).
pub open spec fn check_message(current: Seq<char>, reply: Option<Seq<char>>) -> Seq<char> {
    match reply {
        None => CHECK_FAILED@,
        Some(body) => update_message(
            current,
            match json_text_member(body, "tag_name"@) {
                Some(t) => t,
                None => "unknown"@,
            },
            match json_text_member(body, "html_url"@) {
                Some(u) => u,
                None => RELEASES_URL@,
            },
        ),
    }
}

/// The message of the update check, from the reply's body: its "tag_name"
/// and "html_url" members decide, as `update_notice` says.
pub fn check_updates_notice(current: &str, reply: Option<&str>) -> (r: String)
    ensures
        r@ == check_message(current@, option_view(reply)),
{
    match reply {
        None => {
            let mut msg = String::new();
            msg.append(CHECK_FAILED);
            msg
        },
        Some(body) => {
            let tag = json_text_field(body, "tag_name");
            let url = json_text_field(body, "html_url");
            let tag_ref: Option<&str> = match &tag {
                Some(t) => Some(t.as_str()),
                None => None,
            };
            let url_ref: Option<&str> = match &url {
                Some(u) => Some(u.as_str()),
                None => None,
            };
            update_notice(current, tag_ref, url_ref)
        },
    }
}

} // verus!
