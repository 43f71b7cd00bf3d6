//! Normalising transcripts and phrases, finding the watched phrase that a
//! transcript contains, and debouncing repeated detections.
use crate::text::{char_is_alnum, chars_of, is_alnum, same_text, string_of};
use vstd::prelude::*;

verus! {

/// What `str::to_lowercase` returns for a string: its Unicode lowercase
/// mapping.
pub uninterp spec fn lowercase_of(s: Seq<char>) -> Seq<char>;

/// `str::to_lowercase`: the lowercase equivalent of `s` under Unicode's
/// `Lowercase` property. The contract claims only that the result is a
/// function of the characters of `s` (named `lowercase_of`); no property of
/// the Unicode mapping is stated.
#[verifier::external_body]
fn to_lowercase(s: &str) -> (r: String)
    ensures
        r@ == lowercase_of(s@),
{
    s.to_lowercase()
}

pub const RIGHT_QUOTE: char = '\u{2019}';

/// `s` with each right single quotation mark replaced by an apostrophe.
pub open spec fn straighten(s: Seq<char>) -> Seq<char> {
    s.map_values(|c: char| if c == RIGHT_QUOTE { '\'' } else { c })
}

/// Whether a stand-alone "i'm" (or "i’m") starts at position `i` of `s`.
pub open spec fn im_at(s: Seq<char>, i: int) -> bool {
    &&& 0 <= i
    &&& i + 2 < s.len()
    &&& (i == 0 || !is_alnum(s[i - 1]))
    &&& s[i] == 'i'
    &&& (s[i + 1] == '\'' || s[i + 1] == RIGHT_QUOTE)
    &&& s[i + 2] == 'm'
    &&& (i + 3 == s.len() || !is_alnum(s[i + 3]))
}

/// `s` from position `i` on, with each stand-alone "i'm" written "i am".
pub open spec fn expand_im_from(s: Seq<char>, i: int) -> Seq<char>
    decreases s.len() - i,
{
    if i < 0 || i >= s.len() {
        Seq::empty()
    } else if im_at(s, i) {
        seq!['i', ' ', 'a', 'm'] + expand_im_from(s, i + 3)
    } else {
        seq![s[i]] + expand_im_from(s, i + 1)
    }
}

pub open spec fn expand_im(s: Seq<char>) -> Seq<char> {
    expand_im_from(s, 0)
}

/// The ASCII letters and digits of `s`, each run of other characters after a
/// letter or digit becoming one space (before any trimming).
pub open spec fn collapse(s: Seq<char>) -> Seq<char>
    decreases s.len(),
{
    if s.len() == 0 {
        Seq::empty()
    } else {
        let o = collapse(s.drop_last());
        let c = s.last();
        if is_alnum(c) {
            o.push(c)
        } else if o.len() > 0 && o.last() != ' ' {
            o.push(' ')
        } else {
            o
        }
    }
}

pub open spec fn trim_trailing_space(s: Seq<char>) -> Seq<char> {
    if s.len() > 0 && s.last() == ' ' {
        s.drop_last()
    } else {
        s
    }
}

/// Normal form of an already lowercased text: apostrophes straightened,
/// "i'm" expanded, and the words (runs of ASCII letters and digits) joined
/// by single spaces.
pub open spec fn normal_form(lowered: Seq<char>) -> Seq<char> {
    trim_trailing_space(collapse(expand_im(straighten(lowered))))
}

/// Normal form of a text: its lowercase mapping, normalised.
pub open spec fn normalized(text: Seq<char>) -> Seq<char> {
    normal_form(lowercase_of(text))
}

/// Words of ASCII letters and digits separated by single spaces, with no
/// space at either end.
pub open spec fn is_clean(s: Seq<char>) -> bool {
    &&& forall|i: int| 0 <= i < s.len() ==> is_alnum(#[trigger] s[i]) || s[i] == ' '
    &&& s.len() > 0 ==> s[0] != ' ' && s.last() != ' '
    &&& forall|i: int| 0 <= i < s.len() - 1 ==> !(#[trigger] s[i] == ' ' && s[i + 1] == ' ')
}

/// Like `is_clean`, but a single trailing space is allowed.
spec fn is_collapsed(s: Seq<char>) -> bool {
    &&& forall|i: int| 0 <= i < s.len() ==> is_alnum(#[trigger] s[i]) || s[i] == ' '
    &&& s.len() > 0 ==> s[0] != ' '
    &&& forall|i: int| 0 <= i < s.len() - 1 ==> !(#[trigger] s[i] == ' ' && s[i + 1] == ' ')
}

proof fn lemma_collapse_is_collapsed(s: Seq<char>)
    ensures
        is_collapsed(collapse(s)),
    decreases s.len(),
{
    if s.len() > 0 {
        lemma_collapse_is_collapsed(s.drop_last());
        let o = collapse(s.drop_last());
        let r = collapse(s);
        assert forall|i: int| 0 <= i < r.len() - 1 implies !(#[trigger] r[i] == ' ' && r[i + 1] == ' ') by {
            if i + 1 < o.len() {
                assert(r[i] == o[i] && r[i + 1] == o[i + 1]);
            }
        }
        assert forall|i: int| 0 <= i < r.len() implies is_alnum(#[trigger] r[i]) || r[i] == ' ' by {
            if i < o.len() {
                assert(r[i] == o[i]);
            }
        }
    }
}

proof fn lemma_collapse_fixes_collapsed(s: Seq<char>)
    requires
        is_collapsed(s),
    ensures
        collapse(s) == s,
    decreases s.len(),
{
    if s.len() > 0 {
        let p = s.drop_last();
        assert(is_collapsed(p)) by {
            assert forall|i: int| 0 <= i < p.len() - 1 implies !(#[trigger] p[i] == ' ' && p[i + 1] == ' ') by {
                assert(p[i] == s[i] && p[i + 1] == s[i + 1]);
            }
            assert forall|i: int| 0 <= i < p.len() implies is_alnum(#[trigger] p[i]) || p[i] == ' ' by {
                assert(p[i] == s[i]);
            }
        }
        lemma_collapse_fixes_collapsed(p);
        if !is_alnum(s.last()) {
            assert(s.last() == ' ');
            assert(s.len() >= 2) by {
                if s.len() == 1 {
                    assert(s[0] == ' ');
                }
            }
            assert(s[s.len() - 2] != ' ') by {
                assert(!(s[s.len() - 2] == ' ' && s[s.len() - 1] == ' '));
            }
        }
        assert(s =~= p.push(s.last()));
    }
}

/// The normal form consists of words of ASCII letters and digits separated
/// by single spaces, without a space at either end.
pub proof fn lemma_normal_form_is_clean(lowered: Seq<char>)
    ensures
        is_clean(normal_form(lowered)),
{
    let c = collapse(expand_im(straighten(lowered)));
    lemma_collapse_is_collapsed(expand_im(straighten(lowered)));
    let r = trim_trailing_space(c);
    assert forall|i: int| 0 <= i < r.len() implies is_alnum(#[trigger] r[i]) || r[i] == ' ' by {
        assert(r[i] == c[i]);
    }
    assert forall|i: int| 0 <= i < r.len() - 1 implies !(#[trigger] r[i] == ' ' && r[i + 1] == ' ') by {
        assert(r[i] == c[i] && r[i + 1] == c[i + 1]);
    }
    if r.len() > 0 {
        assert(r[0] == c[0]);
        if c.len() > 0 && c.last() == ' ' {
            assert(r.last() == c[c.len() - 2]);
            assert(!(c[c.len() - 2] == ' ' && c[c.len() - 1] == ' '));
        }
    }
}

proof fn lemma_expand_im_plain(s: Seq<char>, i: int)
    requires
        forall|k: int| 0 <= k < s.len() ==> s[k] != '\'' && s[k] != RIGHT_QUOTE,
        0 <= i <= s.len(),
    ensures
        expand_im_from(s, i) == s.subrange(i, s.len() as int),
    decreases s.len() - i,
{
    if i < s.len() {
        lemma_expand_im_plain(s, i + 1);
        assert(s.subrange(i, s.len() as int) =~= seq![s[i]] + s.subrange(i + 1, s.len() as int));
    } else {
        assert(s.subrange(i, s.len() as int) =~= Seq::<char>::empty());
    }
}

/// Normalising is idempotent: a text already in normal form is its own
/// normal form.
pub proof fn lemma_normal_form_idempotent(lowered: Seq<char>)
    ensures
        normal_form(normal_form(lowered)) == normal_form(lowered),
{
    let n = normal_form(lowered);
    lemma_normal_form_is_clean(lowered);
    assert forall|k: int| 0 <= k < n.len() implies n[k] != '\'' && n[k] != RIGHT_QUOTE by {
        assert(is_alnum(n[k]) || n[k] == ' ');
    }
    assert(straighten(n) =~= n);
    lemma_expand_im_plain(n, 0);
    assert(n.subrange(0, n.len() as int) =~= n);
    assert(is_collapsed(n));
    lemma_collapse_fixes_collapsed(n);
}

/// Only ASCII letters, ASCII digits and spaces appear in a normal form.
pub proof fn lemma_normal_form_chars(lowered: Seq<char>)
    ensures
        forall|i: int|
            0 <= i < normal_form(lowered).len() ==> {
                let c = #[trigger] normal_form(lowered)[i];
                ||| c == ' '
                ||| 'a' <= c && c <= 'z'
                ||| 'A' <= c && c <= 'Z'
                ||| '0' <= c && c <= '9'
            },
{
    lemma_normal_form_is_clean(lowered);
}

/// A word of ASCII letters and digits is its own normal form: every ASCII
/// letter and digit is kept as it is.
pub proof fn lemma_ascii_word_is_kept(s: Seq<char>)
    requires
        forall|i: int|
            0 <= i < s.len() ==> ('a' <= #[trigger] s[i] && s[i] <= 'z') || ('A' <= s[i] && s[i]
                <= 'Z') || ('0' <= s[i] && s[i] <= '9'),
    ensures
        normal_form(s) == s,
{
    assert(straighten(s) =~= s);
    lemma_expand_im_plain(s, 0);
    assert(s.subrange(0, s.len() as int) =~= s);
    assert(is_collapsed(s));
    lemma_collapse_fixes_collapsed(s);
}

/// `s` with each right single quotation mark replaced by an apostrophe.
fn straighten_chars(s: &Vec<char>) -> (r: Vec<char>)
    ensures
        r@ == straighten(s@),
{
    let mut r: Vec<char> = Vec::new();
    for i in 0..s.len()
        invariant
            r@ == straighten(s@.take(i as int)),
    {
        let c = s[i];
        r.push(if c == RIGHT_QUOTE { '\'' } else { c });
        assert(straighten(s@.take(i + 1)) =~= straighten(s@.take(i as int)).push(
            if c == RIGHT_QUOTE { '\'' } else { c },
        ));
    }
    assert(s@.take(s.len() as int) =~= s@);
    r
}

/// Whether a stand-alone "i'm" starts at position `i` of `chars`.
fn im_at_exec(chars: &Vec<char>, i: usize) -> (r: bool)
    requires
        i < chars.len(),
    ensures
        r == im_at(chars@, i as int),
{
    (i == 0 || !char_is_alnum(chars[i - 1])) && chars[i] == 'i' && 2 < chars.len() - i && (
    chars[i + 1] == '\'' || chars[i + 1] == RIGHT_QUOTE) && chars[i + 2] == 'm' && (i + 3
        == chars.len() || !char_is_alnum(chars[i + 3]))
}

/// `text` with each stand-alone "i'm" (or "i’m") written "i am".
pub fn regex_im(text: &str) -> (r: String)
    ensures
        r@ == expand_im(text@),
{
    let chars = chars_of(text);
    let mut out: Vec<char> = Vec::new();
    let mut i: usize = 0;
    while i < chars.len()
        invariant
            i <= chars.len(),
            out@ + expand_im_from(chars@, i as int) == expand_im(chars@),
        decreases chars.len() - i,
    {
        let ghost o0 = out@;
        if im_at_exec(&chars, i) {
            out.push('i');
            out.push(' ');
            out.push('a');
            out.push('m');
            assert(out@ =~= o0 + seq!['i', ' ', 'a', 'm']);
            assert(o0 + expand_im_from(chars@, i as int) =~= out@ + expand_im_from(chars@, i + 3));
            i = i + 3;
            continue;
        }
        out.push(chars[i]);
        assert(o0 + expand_im_from(chars@, i as int) =~= out@ + expand_im_from(chars@, i + 1));
        i = i + 1;
    }
    assert(expand_im_from(chars@, i as int) =~= Seq::<char>::empty());
    assert(out@ =~= expand_im(chars@));
    string_of(&out)
}

/// Normal form of an already lowercased text (see `normal_form`).
pub fn normalize_lowercased(lowered: &str) -> (r: String)
    ensures
        r@ == normal_form(lowered@),
{
    let straight = string_of(&straighten_chars(&chars_of(lowered)));
    let contracted = chars_of(regex_im(straight.as_str()).as_str());
    let ghost e = contracted@;
    let mut out: Vec<char> = Vec::new();
    let mut last_space = true;
    for k in 0..contracted.len()
        invariant
            e == contracted@,
            out@ == collapse(e.take(k as int)),
            last_space == (out@.len() == 0 || out@.last() == ' '),
    {
        let ch = contracted[k];
        assert(e.take(k + 1).drop_last() =~= e.take(k as int));
        if char_is_alnum(ch) {
            out.push(ch);
            last_space = false;
        } else if !last_space {
            out.push(' ');
            last_space = true;
        }
    }
    assert(e.take(contracted.len() as int) =~= e);
    if out.len() > 0 && out[out.len() - 1] == ' ' {
        out.pop();
    }
    string_of(&out)
}

/// Normal form of `text`: lowercased, apostrophes straightened, "i'm"
/// expanded to "i am", and its words of ASCII letters and digits joined by
/// single spaces.
pub fn normalize(text: &str) -> (r: String)
    ensures
        r@ == normalized(text@),
{
    let lowered = to_lowercase(text);
    normalize_lowercased(lowered.as_str())
}

/// `s` with a space before and after it.
pub open spec fn padded(s: Seq<char>) -> Seq<char> {
    seq![' '] + s + seq![' ']
}

/// Whether `needle` occurs as a contiguous part of `hay`.
pub open spec fn occurs_in(hay: Seq<char>, needle: Seq<char>) -> bool {
    exists|i: int|
        0 <= i && i + needle.len() <= hay.len() && #[trigger] hay.subrange(i, i + needle.len())
            == needle
}

/// Whether the (normalised) phrase `needle` is non-empty and occurs as
/// whole words in the (normalised) transcript `hay`.
pub open spec fn is_candidate(hay: Seq<char>, needle: Seq<char>) -> bool {
    needle.len() > 0 && occurs_in(padded(hay), padded(needle))
}

/// Phrase `j` is the one to report: it is a candidate, no candidate is
/// longer, and no candidate of the same length comes before it.
pub open spec fn is_best(hay: Seq<char>, needles: Seq<Seq<char>>, j: int) -> bool {
    &&& 0 <= j < needles.len()
    &&& is_candidate(hay, needles[j])
    &&& forall|k: int|
        0 <= k < needles.len() && #[trigger] is_candidate(hay, needles[k]) ==> needles[k].len()
            < needles[j].len() || (needles[k].len() == needles[j].len() && j <= k)
}

/// At most one phrase is the one to report.
pub proof fn lemma_best_is_unique(hay: Seq<char>, needles: Seq<Seq<char>>, j: int, k: int)
    requires
        is_best(hay, needles, j),
        is_best(hay, needles, k),
    ensures
        j == k,
{
    assert(is_candidate(hay, needles[k]));
    assert(is_candidate(hay, needles[j]));
}

pub open spec fn strings_view(v: Seq<String>) -> Seq<Seq<char>> {
    v.map_values(|s: String| s@)
}

/// Whether `needle` occurs in `hay` at position `i`.
fn occurs_at(hay: &Vec<char>, needle: &Vec<char>, i: usize) -> (r: bool)
    requires
        i + needle.len() <= hay.len(),
    ensures
        r == (hay@.subrange(i as int, i + needle.len()) == needle@),
{
    for t in 0..needle.len()
        invariant
            i + needle.len() <= hay.len(),
            forall|u: int| 0 <= u < t ==> hay@[i + u] == needle@[u],
    {
        if hay[i + t] != needle[t] {
            assert(hay@.subrange(i as int, i + needle.len())[t as int] != needle@[t as int]);
            return false;
        }
    }
    assert(hay@.subrange(i as int, i + needle.len()) =~= needle@);
    true
}

/// Whether `needle` occurs as a contiguous part of `hay`.
fn occurs(hay: &Vec<char>, needle: &Vec<char>) -> (r: bool)
    ensures
        r == occurs_in(hay@, needle@),
{
    if needle.len() > hay.len() {
        return false;
    }
    let last = hay.len() - needle.len();
    let mut i: usize = 0;
    loop
        invariant
            last == hay.len() - needle.len(),
            needle.len() <= hay.len(),
            i <= last,
            forall|u: int|
                0 <= u < i ==> #[trigger] hay@.subrange(u, u + needle.len()) != needle@,
        decreases last - i,
    {
        if occurs_at(hay, needle, i) {
            return true;
        }
        if i == last {
            return false;
        }
        i = i + 1;
    }
}

/// `s` with a space before and after it.
fn pad(s: &Vec<char>) -> (r: Vec<char>)
    ensures
        r@ == padded(s@),
{
    let mut r: Vec<char> = Vec::new();
    r.push(' ');
    for i in 0..s.len()
        invariant
            r@ == seq![' '] + s@.take(i as int),
    {
        r.push(s[i]);
        assert(s@.take(i + 1) =~= s@.take(i as int).push(s@[i as int]));
        assert(r@ =~= seq![' '] + s@.take(i + 1));
    }
    r.push(' ');
    assert(s@.take(s.len() as int) =~= s@);
    assert(r@ =~= padded(s@));
    r
}

/// Which of the normalised phrases `needles` to report for the normalised
/// transcript `hay`: the longest that occurs in it as whole words, the first
/// such when several are as long.
pub fn select_phrase(hay: &str, needles: &[String]) -> (r: Option<usize>)
    ensures
        match r {
            Some(j) => is_best(hay@, strings_view(needles@), j as int),
            None => forall|k: int|
                0 <= k < needles.len() ==> !#[trigger] is_candidate(hay@, needles@[k]@),
        },
{
    let ghost ns = strings_view(needles@);
    let padded_hay = pad(&chars_of(hay));
    let mut best: Option<usize> = None;
    let mut best_len: usize = 0;
    for k in 0..needles.len()
        invariant
            ns == strings_view(needles@),
            padded_hay@ == padded(hay@),
            match best {
                Some(j) => {
                    &&& j < k
                    &&& best_len == ns[j as int].len()
                    &&& is_candidate(hay@, ns[j as int])
                    &&& forall|t: int|
                        0 <= t < k && #[trigger] is_candidate(hay@, ns[t]) ==> ns[t].len()
                            < ns[j as int].len() || (ns[t].len() == ns[j as int].len() && j <= t)
                },
                None => forall|t: int| 0 <= t < k ==> !#[trigger] is_candidate(hay@, ns[t]),
            },
    {
        let needle = chars_of(needles[k].as_str());
        assert(needle@ == ns[k as int]);
        let found = needle.len() > 0 && occurs(&padded_hay, &pad(&needle));
        if found {
            let better = match best {
                Some(_) => needle.len() > best_len,
                None => true,
            };
            if better {
                best = Some(k);
                best_len = needle.len();
            }
        }
    }
    proof {
        if best is None {
            assert forall|k: int| 0 <= k < needles.len() implies !#[trigger] is_candidate(hay@, needles@[k]@) by {
                assert(ns[k] == needles@[k]@);
            }
        }
    }
    best
}

/// The normal forms of `phrases`.
pub open spec fn normalized_all(phrases: Seq<String>) -> Seq<Seq<char>> {
    phrases.map_values(|p: String| normalized(p@))
}

/// The phrase of `phrases` that `transcript` says: the one whose normal form
/// is longest among those that occur as whole words in the normal form of the
/// transcript, the first such when several are as long; `None` when none does.
pub fn match_phrase<'a>(transcript: &str, phrases: &'a [String]) -> (r: Option<&'a str>)
    ensures
        match r {
            Some(p) => exists|j: int|
                is_best(normalized(transcript@), normalized_all(phrases@), j) && p@ == phrases@[j]@,
            None => forall|k: int|
                0 <= k < phrases.len() ==> !#[trigger] is_candidate(
                    normalized(transcript@),
                    normalized_all(phrases@)[k],
                ),
        },
{
    let hay = normalize(transcript);
    let mut needles: Vec<String> = Vec::new();
    for k in 0..phrases.len()
        invariant
            strings_view(needles@) == normalized_all(phrases@).take(k as int),
    {
        let n = normalize(phrases[k].as_str());
        assert(n@ == normalized_all(phrases@)[k as int]);
        let ghost before = needles@;
        needles.push(n);
        assert(strings_view(needles@) =~= strings_view(before).push(n@));
        assert(strings_view(needles@) =~= normalized_all(phrases@).take(k + 1));
    }
    assert(normalized_all(phrases@).take(phrases.len() as int) =~= normalized_all(phrases@));
    if hay.as_str().unicode_len() == 0 {
        proof {
            assert forall|k: int| 0 <= k < phrases.len() implies !#[trigger] is_candidate(
                normalized(transcript@),
                normalized_all(phrases@)[k],
            ) by {
                let n = normalized_all(phrases@)[k];
                if occurs_in(padded(hay@), padded(n)) {
                    let i = choose|i: int|
                        0 <= i && i + padded(n).len() <= padded(hay@).len() && #[trigger] padded(
                            hay@,
                        ).subrange(i, i + padded(n).len()) == padded(n);
                }
            }
        }
        return None;
    }
    match select_phrase(hay.as_str(), needles.as_slice()) {
        Some(j) => Some(phrases[j].as_str()),
        None => None,
    }
}


/// `std::time::Instant`: a reading of the monotonic clock, opaque here.
#[verifier::external_type_specification]
#[verifier::external_body]
pub struct ExInstant(std::time::Instant);

/// `Instant::now`: the current reading of the monotonic clock. Nothing is
/// claimed of it.
#[verifier::external_body]
fn clock_now() -> std::time::Instant {
    std::time::Instant::now()
}

/// `Instant::elapsed`: the time since `origin`, in whole nanoseconds
/// (`Duration::as_nanos`, cut to 64 bits, which hold some 584 years). Nothing is claimed of the result, which depends
/// on the clock.
#[verifier::external_body]
fn nanos_since(origin: &std::time::Instant) -> u64 {
    origin.elapsed().as_nanos() as u64
}

/// The time from `prev` to `now`, or zero when `now` is earlier (as
/// `Instant::duration_since` saturates).
pub open spec fn elapsed_ns(prev: int, now: int) -> int {
    if now >= prev {
        now - prev
    } else {
        0
    }
}

/// Whether a detection of the phrase with normal form `key` at `now` is held
/// back: the same key was let through less than `window` nanoseconds earlier.
pub open spec fn holds_back(last: Map<Seq<char>, int>, window: int, key: Seq<char>, now: int) -> bool {
    last.contains_key(key) && elapsed_ns(last[key], now) < window
}

/// Within the window after a phrase is let through, it is held back.
pub proof fn lemma_held_back_within_window(
    last: Map<Seq<char>, int>,
    window: int,
    key: Seq<char>,
    t: int,
    now: int,
)
    requires
        t <= now < t + window,
    ensures
        holds_back(last.insert(key, t), window, key, now),
{
}

/// Once the window after a phrase was let through has passed, it is let
/// through again.
pub proof fn lemma_released_after_window(
    last: Map<Seq<char>, int>,
    window: int,
    key: Seq<char>,
    t: int,
    now: int,
)
    requires
        now >= t + window,
    ensures
        !holds_back(last.insert(key, t), window, key, now),
{
}

/// Letting one phrase through does not change whether another is held back.
pub proof fn lemma_other_keys_unaffected(
    last: Map<Seq<char>, int>,
    window: int,
    key: Seq<char>,
    other: Seq<char>,
    t: int,
    now: int,
)
    requires
        other != key,
    ensures
        holds_back(last.insert(key, t), window, other, now) == holds_back(last, window, other, now),
{
}

/// When a phrase (by its normal form) was last let through.
struct LastHit {
    key: String,
    at_ns: u64,
}

spec fn entries_map(v: Seq<LastHit>) -> Map<Seq<char>, int>
    decreases v.len(),
{
    if v.len() == 0 {
        Map::empty()
    } else {
        entries_map(v.drop_last()).insert(v.last().key@, v.last().at_ns as int)
    }
}

spec fn keys_distinct(v: Seq<LastHit>) -> bool {
    forall|i: int, j: int| 0 <= i < j < v.len() ==> v[i].key@ != v[j].key@
}

proof fn lemma_entries_map_lookup(v: Seq<LastHit>)
    requires
        keys_distinct(v),
    ensures
        forall|i: int|
            0 <= i < v.len() ==> entries_map(v).contains_key(#[trigger] v[i].key@)
                && entries_map(v)[v[i].key@] == v[i].at_ns as int,
        forall|k: Seq<char>|
            entries_map(v).contains_key(k) ==> exists|i: int| 0 <= i < v.len() && #[trigger] v[i].key@ == k,
    decreases v.len(),
{
    if v.len() > 0 {
        let p = v.drop_last();
        assert(keys_distinct(p));
        lemma_entries_map_lookup(p);
        assert forall|k: Seq<char>| entries_map(v).contains_key(k) implies exists|i: int|
            0 <= i < v.len() && #[trigger] v[i].key@ == k by {
            if k != v.last().key@ {
                assert(entries_map(v) == entries_map(p).insert(v.last().key@, v.last().at_ns as int));
                assert(entries_map(p).contains_key(k));
                let i = choose|i: int| 0 <= i < p.len() && #[trigger] p[i].key@ == k;
                assert(p[i] == v[i]);
                assert(v[i].key@ == k);
            } else {
                assert(v[v.len() - 1].key@ == k);
            }
        }
        assert forall|i: int| 0 <= i < v.len() implies entries_map(v).contains_key(#[trigger] v[i].key@)
            && entries_map(v)[v[i].key@] == v[i].at_ns as int by {
            if i < v.len() - 1 {
                assert(p[i] == v[i]);
                assert(v[i].key@ != v[v.len() - 1].key@);
            }
        }
    }
}

proof fn lemma_entries_map_update(v: Seq<LastHit>, pos: int, e: LastHit)
    requires
        keys_distinct(v),
        0 <= pos < v.len(),
        v[pos].key@ == e.key@,
    ensures
        entries_map(v.update(pos, e)) == entries_map(v).insert(e.key@, e.at_ns as int),
        keys_distinct(v.update(pos, e)),
    decreases v.len(),
{
    let w = v.update(pos, e);
    if pos < v.len() - 1 {
        let p = v.drop_last();
        assert(w.drop_last() =~= p.update(pos, e));
        assert(keys_distinct(p));
        lemma_entries_map_update(p, pos, e);
        assert(v.last().key@ != e.key@) by {
            assert(v[pos].key@ != v[v.len() - 1].key@);
        }
        assert(entries_map(w) =~= entries_map(v).insert(e.key@, e.at_ns as int));
    } else {
        assert(w.drop_last() =~= v.drop_last());
        assert(entries_map(w) =~= entries_map(v).insert(e.key@, e.at_ns as int));
    }
    assert forall|i: int, j: int| 0 <= i < j < w.len() implies w[i].key@ != w[j].key@ by {
        assert(v[i].key@ != v[j].key@);
    }
}

/// Position of the entry for `key`, if there is one.
fn find_key(last: &Vec<LastHit>, key: &String) -> (r: Option<usize>)
    ensures
        match r {
            Some(p) => p < last.len() && last@[p as int].key@ == key@,
            None => forall|a: int| 0 <= a < last.len() ==> last@[a].key@ != key@,
        },
{
    for i in 0..last.len()
        invariant
            forall|a: int| 0 <= a < i ==> last@[a].key@ != key@,
    {
        if same_text(last[i].key.as_str(), key.as_str()) {
            return Some(i);
        }
    }
    None
}

/// Lets a detected phrase through at most once per time window: a phrase
/// is held back when a phrase with the same normal form was let through less
/// than the window ago.
pub struct Debouncer {
    window_ns: u64,
    origin: std::time::Instant,
    last: Vec<LastHit>,
}

impl Debouncer {
    /// The window, in nanoseconds.
    pub closed spec fn window(&self) -> int {
        self.window_ns as int
    }

    /// When each phrase (by its normal form) was last let through, in nanoseconds on
    /// this debouncer's clock.
    pub closed spec fn last_seen(&self) -> Map<Seq<char>, int> {
        entries_map(self.last@)
    }

    pub closed spec fn wf(&self) -> bool {
        keys_distinct(self.last@)
    }

    /// A debouncer with a window of `window_ns` nanoseconds that has let
    /// nothing through yet.
    pub fn new(window_ns: u64) -> (r: Debouncer)
        ensures
            r.wf(),
            r.window() == window_ns,
            r.last_seen() == Map::<Seq<char>, int>::empty(),
    {
        Debouncer { window_ns, origin: clock_now(), last: Vec::new() }
    }

    /// Decides whether `phrase`, detected at `now_ns` on this debouncer's
    /// clock, is let through, and records it when it is.
    pub fn allow_at(&mut self, phrase: &str, now_ns: u64) -> (allowed: bool)
        requires
            old(self).wf(),
        ensures
            final(self).wf(),
            final(self).window() == old(self).window(),
            allowed == !holds_back(old(self).last_seen(), old(self).window(), normalized(phrase@), now_ns as int),
            final(self).last_seen() == if allowed {
                old(self).last_seen().insert(normalized(phrase@), now_ns as int)
            } else {
                old(self).last_seen()
            },
    {
        let key = normalize(phrase);
        proof {
            lemma_entries_map_lookup(self.last@);
        }
        match find_key(&self.last, &key) {
            Some(pos) => {
                let prev = self.last[pos].at_ns;
                let elapsed = if now_ns >= prev {
                    now_ns - prev
                } else {
                    0
                };
                if elapsed < self.window_ns {
                    return false;
                }
                let ghost v0 = self.last@;
                let entry = LastHit { key, at_ns: now_ns };
                proof {
                    lemma_entries_map_update(v0, pos as int, entry);
                }
                self.last.set(pos, entry);
                true
            },
            None => {
                proof {
                    assert(!entries_map(self.last@).contains_key(key@)) by {
                        if entries_map(self.last@).contains_key(key@) {
                            let i = choose|i: int| 0 <= i < self.last@.len() && #[trigger] self.last@[i].key@ == key@;
                        }
                    }
                }
                let ghost v0 = self.last@;
                self.last.push(LastHit { key, at_ns: now_ns });
                proof {
                    assert(self.last@.drop_last() =~= v0);
                    assert forall|i: int, j: int| 0 <= i < j < self.last@.len() implies self.last@[i].key@ != self.last@[j].key@ by {
                        if j == self.last@.len() - 1 {
                            assert(v0[i].key@ != key@);
                        }
                    }
                }
                true
            },
        }
    }

    /// The reading of this debouncer's clock, in nanoseconds since it was made.
    /// Nothing is known of it.
    pub fn clock_ns(&self) -> u64 {
        nanos_since(&self.origin)
    }

    /// Decides whether `phrase`, detected now, is let through, and records it
    /// when it is. The reading of the clock is not known; the decision is the
    /// one `allow_at` makes at that reading.
    pub fn allow(&mut self, phrase: &str) -> (allowed: bool)
        requires
            old(self).wf(),
        ensures
            final(self).wf(),
            final(self).window() == old(self).window(),
            exists|now: u64|
                allowed == !holds_back(old(self).last_seen(), old(self).window(), normalized(phrase@), now as int)
                && final(self).last_seen() == if allowed {
                    old(self).last_seen().insert(normalized(phrase@), now as int)
                } else {
                    old(self).last_seen()
                },
    {
        let now = nanos_since(&self.origin);
        self.allow_at(phrase, now)
    }
}
} // verus!
