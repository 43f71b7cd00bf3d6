//! The hit log's framing: one record per line, blank lines skipped.
use crate::text::chars_of;
use vstd::prelude::*;

verus! {

/// Whether `c` has the Unicode White_Space property, which is what
/// `char::is_whitespace` and `str::trim` go by.
pub open spec fn is_white_space(c: char) -> bool {
    ||| '\u{9}' <= c && c <= '\u{d}'
    ||| c == ' '
    ||| c == '\u{85}'
    ||| c == '\u{a0}'
    ||| c == '\u{1680}'
    ||| '\u{2000}' <= c && c <= '\u{200a}'
    ||| c == '\u{2028}'
    ||| c == '\u{2029}'
    ||| c == '\u{202f}'
    ||| c == '\u{205f}'
    ||| c == '\u{3000}'
}

/// Whether `c` is white space.
pub fn char_is_white_space(c: char) -> (r: bool)
    ensures
        r == is_white_space(c),
{
    ('\u{9}' <= c && c <= '\u{d}') || c == ' ' || c == '\u{85}' || c == '\u{a0}' || c == '\u{1680}'
        || ('\u{2000}' <= c && c <= '\u{200a}') || c == '\u{2028}' || c == '\u{2029}' || c
        == '\u{202f}' || c == '\u{205f}' || c == '\u{3000}'
}

/// Whether `s` is empty or white space only (what `s.trim().is_empty()` tests).
pub open spec fn is_blank(s: Seq<char>) -> bool {
    forall|i: int| 0 <= i < s.len() ==> is_white_space(#[trigger] s[i])
}

/// Whether the line `s` holds no record.
pub fn blank(s: &str) -> (r: bool)
    ensures
        r == is_blank(s@),
{
    let cs = chars_of(s);
    for i in 0..cs.len()
        invariant
            cs@ == s@,
            forall|k: int| 0 <= k < i ==> is_white_space(#[trigger] s@[k]),
    {
        if !char_is_white_space(cs[i]) {
            return false;
        }
    }
    true
}

/// The position of the first newline byte in `b` at or after `i`, or the
/// length of `b` when there is none.
pub open spec fn next_newline(b: Seq<u8>, i: int) -> int
    decreases b.len() - i,
{
    if i >= b.len() || i < 0 || b[i] == 10 {
        i
    } else {
        next_newline(b, i + 1)
    }
}

/// Where the next newline from `i` stands, and that none comes before it.
pub proof fn lemma_next_newline(b: Seq<u8>, i: int)
    requires
        0 <= i <= b.len(),
    ensures
        i <= next_newline(b, i) <= b.len(),
        next_newline(b, i) < b.len() ==> b[next_newline(b, i)] == 10,
        forall|k: int| i <= k < next_newline(b, i) ==> b[k] != 10,
    decreases b.len() - i,
{
    if i < b.len() && b[i] != 10 {
        lemma_next_newline(b, i + 1);
    }
}

proof fn lemma_next_newline_at(b: Seq<u8>, start: int, i: int)
    requires
        0 <= start <= i <= b.len(),
        forall|k: int| start <= k < i ==> b[k] != 10,
        i == b.len() || b[i] == 10,
    ensures
        next_newline(b, start) == i,
    decreases i - start,
{
    if start < i {
        lemma_next_newline_at(b, start + 1, i);
    }
}

/// The lines of `b` from position `i` on, as `BufRead::lines` gives them:
/// split at each newline byte, the newline (and a carriage return just
/// before it) left out, with no line after a final newline.
pub open spec fn lines_from(b: Seq<u8>, i: int) -> Seq<Seq<u8>>
    decreases b.len() + 1 - i,
{
    if i < 0 || i >= b.len() {
        Seq::empty()
    } else {
        let j = next_newline(b, i);
        proof {
            lemma_next_newline(b, i);
        }
        let line = if j < b.len() && j > i && b[j - 1] == 13 {
            b.subrange(i, j - 1)
        } else {
            b.subrange(i, j)
        };
        seq![line] + lines_from(b, j + 1)
    }
}

/// The lines of `b`.
pub open spec fn log_lines(b: Seq<u8>) -> Seq<Seq<u8>> {
    lines_from(b, 0)
}

pub open spec fn byte_lines_view(v: Seq<Vec<u8>>) -> Seq<Seq<u8>> {
    v.map_values(|l: Vec<u8>| l@)
}

/// The bytes `b[from..to]`.
fn copy_range(b: &[u8], from: usize, to: usize) -> (r: Vec<u8>)
    requires
        from <= to <= b.len(),
    ensures
        r@ == b@.subrange(from as int, to as int),
{
    let mut r: Vec<u8> = Vec::new();
    for k in from..to
        invariant
            from <= to <= b.len(),
            r@ == b@.subrange(from as int, k as int),
    {
        r.push(b[k]);
        assert(b@.subrange(from as int, k + 1) =~= b@.subrange(from as int, k as int).push(b@[k as int]));
    }
    r
}

/// Splits the contents of the hit log into lines.
pub fn split_lines(b: &[u8]) -> (r: Vec<Vec<u8>>)
    ensures
        byte_lines_view(r@) == log_lines(b@),
{
    let mut out: Vec<Vec<u8>> = Vec::new();
    let mut start: usize = 0;
    let mut i: usize = 0;
    while i < b.len()
        invariant
            start <= i <= b.len(),
            forall|k: int| start <= k < i ==> b@[k] != 10,
            byte_lines_view(out@) + lines_from(b@, start as int) == log_lines(b@),
        decreases b.len() - i,
    {
        if b[i] == 10 {
            proof {
                lemma_next_newline_at(b@, start as int, i as int);
            }
            let end: usize = if i > start && b[i - 1] == 13 {
                i - 1
            } else {
                i
            };
            let line = copy_range(b, start, end);
            let ghost before = out@;
            out.push(line);
            proof {
                assert(byte_lines_view(out@) =~= byte_lines_view(before).push(line@));
                assert(lines_from(b@, start as int) =~= seq![line@] + lines_from(b@, i + 1));
                assert(byte_lines_view(out@) + lines_from(b@, i + 1) =~= byte_lines_view(before)
                    + lines_from(b@, start as int));
            }
            start = i + 1;
        }
        i = i + 1;
    }
    if start < b.len() {
        proof {
            lemma_next_newline_at(b@, start as int, b.len() as int);
        }
        let line = copy_range(b, start, b.len());
        let ghost before = out@;
        out.push(line);
        proof {
            assert(byte_lines_view(out@) =~= byte_lines_view(before).push(line@));
            assert(lines_from(b@, b.len() + 1) =~= Seq::<Seq<u8>>::empty());
            assert(lines_from(b@, start as int) =~= seq![line@]);
            assert(byte_lines_view(out@) =~= byte_lines_view(before) + lines_from(b@, start as int));
        }
    } else {
        assert(lines_from(b@, start as int) =~= Seq::<Seq<u8>>::empty());
        assert(byte_lines_view(out@) =~= byte_lines_view(out@) + lines_from(b@, start as int));
    }
    out
}

} // verus!
