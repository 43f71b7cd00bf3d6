//! Statistics over the log of hits: the hits of a time window (optionally of
//! one phrase), their total, the count of each phrase, and the counts per
//! time bucket (15 minutes, an hour, a day, a local week or a local month).
use crate::calendar::{
    add_local_month, civil_of_day, days_since_monday, floor_div, in_calendar_range,
    lemma_month_starts_on_the_first, lemma_next_month_start_advances, local_day,
    local_day_start, local_ms, local_month_start, local_next_month_start, local_week_start,
    start_of_local_month, start_of_local_week, utc_ms, DAY_MS, HOUR_MS, MINUTE_MS, WEEK_MS,
};
use crate::text::{lemma_str_less_irreflexive, lemma_str_less_total, lemma_str_less_transitive, same_text, str_less, text_less};
use vstd::prelude::*;

verus! {

/// The most buckets a query lays out; a layout with more is refused.
pub const MAX_BUCKETS: i64 = 2000;

/// The largest magnitude of a timestamp (in ms) that the statistics take
/// (2^61 ms, some 73 million years), so that the span between two of them,
/// and the bucket arithmetic on it, fits in an `i64`.
pub const TIME_LIMIT_MS: i64 = 2_305_843_009_213_693_952;

pub open spec fn in_time_range(t: int) -> bool {
    -TIME_LIMIT_MS <= t <= TIME_LIMIT_MS
}

/// Range of the start of a query window: a timestamp, or one day before one.
pub open spec fn in_start_range(t: int) -> bool {
    -TIME_LIMIT_MS - DAY_MS <= t <= TIME_LIMIT_MS
}

/// One logged detection: when it happened (UTC milliseconds since the
/// epoch) and which phrase was heard.
#[derive(Clone, Debug)]
pub struct LoggedHit {
    pub ms: i64,
    pub phrase: String,
}

impl View for LoggedHit {
    type V = (int, Seq<char>);

    open spec fn view(&self) -> (int, Seq<char>) {
        (self.ms as int, self.phrase@)
    }
}

/// How many hits a phrase has.
#[derive(Clone, Debug)]
pub struct PhraseCount {
    pub phrase: String,
    pub count: u32,
}

impl View for PhraseCount {
    type V = (Seq<char>, int);

    open spec fn view(&self) -> (Seq<char>, int) {
        (self.phrase@, self.count as int)
    }
}

/// The hits of one time bucket: where it starts, how many hits it holds, and
/// how many of them each phrase has.
#[derive(Clone, Debug)]
pub struct StatsBucket {
    pub start_ms: i64,
    pub count: u32,
    pub segments: Vec<PhraseCount>,
}

/// The answer to a statistics query.
#[derive(Clone, Debug)]
pub struct StatsResult {
    /// Number of hits in the window.
    pub total: u32,
    /// The buckets, oldest first (empty when there would be too many).
    pub buckets: Vec<StatsBucket>,
    /// Count of each phrase in the window.
    pub breakdown: Vec<PhraseCount>,
    /// Every phrase of the log, in lexicographic order, each once.
    pub phrases: Vec<String>,
    /// The number of buckets the layout would have had, when over `MAX_BUCKETS`.
    pub too_many: Option<u32>,
}

/// Number of occurrences of `p` in `ps`.
pub open spec fn count_of(ps: Seq<Seq<char>>, p: Seq<char>) -> nat
    decreases ps.len(),
{
    if ps.len() == 0 {
        0
    } else {
        count_of(ps.drop_last(), p) + if ps.last() == p {
            1nat
        } else {
            0nat
        }
    }
}

/// Order of the phrase counts: more hits first, then lexicographically.
pub open spec fn ranks_before(a: (Seq<char>, int), b: (Seq<char>, int)) -> bool {
    a.1 > b.1 || (a.1 == b.1 && str_less(a.0, b.0))
}

pub open spec fn counts_view(v: Seq<PhraseCount>) -> Seq<(Seq<char>, int)> {
    v.map_values(|c: PhraseCount| c@)
}

/// `out` lists each phrase that occurs in `ps` exactly once, with its number
/// of occurrences, ordered by `ranks_before`.
pub open spec fn is_tally(out: Seq<(Seq<char>, int)>, ps: Seq<Seq<char>>) -> bool {
    &&& forall|i: int, j: int| 0 <= i < j < out.len() ==> ranks_before(out[i], out[j])
    &&& forall|i: int|
        0 <= i < out.len() ==> out[i].1 == count_of(ps, out[i].0) && out[i].1 > 0
    &&& forall|p: Seq<char>|
        count_of(ps, p) > 0 ==> exists|i: int| 0 <= i < out.len() && out[i].0 == p
}

pub open spec fn phrases_of(hs: Seq<(int, Seq<char>)>) -> Seq<Seq<char>> {
    hs.map_values(|h: (int, Seq<char>)| h.1)
}

pub open spec fn views_of(hits: Seq<LoggedHit>) -> Seq<(int, Seq<char>)> {
    hits.map_values(|h: LoggedHit| h@)
}

/// The hits at positions `idx` of `hits`, in that order.
pub open spec fn select(hits: Seq<(int, Seq<char>)>, idx: Seq<usize>) -> Seq<(int, Seq<char>)> {
    idx.map_values(|k: usize| hits[k as int])
}

/// A bucket that starts at `start` and holds the hits `members`: its
/// segments tally them by phrase and add up to its count.
pub open spec fn bucket_holds(b: StatsBucket, start: int, members: Seq<(int, Seq<char>)>) -> bool {
    &&& b.start_ms == start
    &&& b.count == members.len()
    &&& is_tally(counts_view(b.segments@), phrases_of(members))
    &&& sum_counts(counts_view(b.segments@)) == b.count
}

pub open spec fn sum_counts(s: Seq<(Seq<char>, int)>) -> int
    decreases s.len(),
{
    if s.len() == 0 {
        0
    } else {
        sum_counts(s.drop_last()) + s.last().1
    }
}

proof fn lemma_sum_update(s: Seq<(Seq<char>, int)>, k: int, x: (Seq<char>, int))
    requires
        0 <= k < s.len(),
    ensures
        sum_counts(s.update(k, x)) == sum_counts(s) - s[k].1 + x.1,
    decreases s.len(),
{
    if k < s.len() - 1 {
        assert(s.update(k, x).drop_last() =~= s.drop_last().update(k, x));
        lemma_sum_update(s.drop_last(), k, x);
    } else {
        assert(s.update(k, x).drop_last() =~= s.drop_last());
    }
}

proof fn lemma_sum_insert(s: Seq<(Seq<char>, int)>, k: int, x: (Seq<char>, int))
    requires
        0 <= k <= s.len(),
    ensures
        sum_counts(s.insert(k, x)) == sum_counts(s) + x.1,
    decreases s.len(),
{
    if k < s.len() {
        assert(s.insert(k, x).drop_last() =~= s.drop_last().insert(k, x));
        lemma_sum_insert(s.drop_last(), k, x);
    } else {
        assert(s.insert(k, x).drop_last() =~= s);
    }
}

proof fn lemma_count_of_push(ps: Seq<Seq<char>>, q: Seq<char>)
    ensures
        forall|p: Seq<char>| #[trigger]
            count_of(ps.push(q), p) == count_of(ps, p) + if p == q {
                1nat
            } else {
                0nat
            },
{
    assert forall|p: Seq<char>| #[trigger]
        count_of(ps.push(q), p) == count_of(ps, p) + if p == q {
            1nat
        } else {
            0nat
        } by {
        assert(ps.push(q).drop_last() =~= ps);
    }
}

proof fn lemma_ranks_total(a: (Seq<char>, int), b: (Seq<char>, int))
    requires
        a.0 != b.0,
    ensures
        ranks_before(a, b) || ranks_before(b, a),
        !(ranks_before(a, b) && ranks_before(b, a)),
{
    lemma_str_less_total(a.0, b.0);
}

proof fn lemma_ranks_transitive(a: (Seq<char>, int), b: (Seq<char>, int), c: (Seq<char>, int))
    requires
        ranks_before(a, b),
        ranks_before(b, c),
    ensures
        ranks_before(a, c),
{
    if a.1 == b.1 && b.1 == c.1 {
        lemma_str_less_transitive(a.0, b.0, c.0);
    }
}

/// `out` pairs each phrase of `ps` once with its number of occurrences, in
/// any order; the counts add up to the number of phrases.
spec fn counts_match(out: Seq<(Seq<char>, int)>, ps: Seq<Seq<char>>) -> bool {
    &&& forall|a: int, b: int| 0 <= a < b < out.len() ==> out[a].0 != out[b].0
    &&& forall|a: int|
        0 <= a < out.len() ==> out[a].1 == count_of(ps, out[a].0) && out[a].1 > 0
    &&& forall|p: Seq<char>|
        count_of(ps, p) > 0 ==> exists|a: int| 0 <= a < out.len() && out[a].0 == p
    &&& sum_counts(out) == ps.len()
}

proof fn lemma_counts_bump(out: Seq<(Seq<char>, int)>, ps: Seq<Seq<char>>, pos: int, q: Seq<char>)
    requires
        counts_match(out, ps),
        0 <= pos < out.len(),
        out[pos].0 == q,
    ensures
        counts_match(out.update(pos, (q, out[pos].1 + 1)), ps.push(q)),
{
    let out1 = out.update(pos, (q, out[pos].1 + 1));
    let ps1 = ps.push(q);
    lemma_count_of_push(ps, q);
    lemma_sum_update(out, pos, (q, out[pos].1 + 1));
    assert forall|p: Seq<char>| count_of(ps1, p) > 0 implies exists|a: int|
        0 <= a < out1.len() && out1[a].0 == p by {
        if p == q {
            assert(out1[pos].0 == p);
        } else {
            assert(count_of(ps, p) > 0);
            let a = choose|a: int| 0 <= a < out.len() && out[a].0 == p;
            assert(out1[a].0 == p);
        }
    }
}

proof fn lemma_counts_add(out: Seq<(Seq<char>, int)>, ps: Seq<Seq<char>>, q: Seq<char>)
    requires
        counts_match(out, ps),
        forall|a: int| 0 <= a < out.len() ==> out[a].0 != q,
    ensures
        counts_match(out.push((q, 1)), ps.push(q)),
{
    let out1 = out.push((q, 1));
    let ps1 = ps.push(q);
    lemma_count_of_push(ps, q);
    assert(out1.drop_last() =~= out);
    assert(count_of(ps, q) == 0) by {
        if count_of(ps, q) > 0 {
            let a = choose|a: int| 0 <= a < out.len() && out[a].0 == q;
        }
    }
    assert forall|p: Seq<char>| count_of(ps1, p) > 0 implies exists|a: int|
        0 <= a < out1.len() && out1[a].0 == p by {
        if p == q {
            assert(out1[out.len() as int].0 == p);
        } else {
            assert(count_of(ps, p) > 0);
            let a = choose|a: int| 0 <= a < out.len() && out[a].0 == p;
            assert(out1[a].0 == p);
        }
    }
}

/// Position of the count of `phrase` in `counts`, if there is one.
fn find_count(counts: &Vec<PhraseCount>, phrase: &String) -> (r: Option<usize>)
    ensures
        match r {
            Some(p) => p < counts.len() && counts@[p as int].phrase@ == phrase@,
            None => forall|a: int| 0 <= a < counts.len() ==> counts@[a].phrase@ != phrase@,
        },
{
    for pos in 0..counts.len()
        invariant
            forall|a: int| 0 <= a < pos ==> counts@[a].phrase@ != phrase@,
    {
        if same_text(counts[pos].phrase.as_str(), phrase.as_str()) {
            return Some(pos);
        }
    }
    None
}

/// Counts the phrases of the hits at positions `idx`, first seen first.
fn count_phrases(hits: &[LoggedHit], idx: &Vec<usize>) -> (r: Vec<PhraseCount>)
    requires
        idx.len() <= u32::MAX,
        forall|j: int| 0 <= j < idx.len() ==> idx@[j] < hits.len(),
    ensures
        counts_match(counts_view(r@), phrases_of(select(views_of(hits@), idx@))),
{
    let ghost all = views_of(hits@);
    let mut counts: Vec<PhraseCount> = Vec::new();
    proof {
        assert(counts_view(counts@) =~= Seq::empty());
        assert(phrases_of(select(all, idx@.take(0))) =~= Seq::empty());
    }
    for j in 0..idx.len()
        invariant
            idx.len() <= u32::MAX,
            forall|j: int| 0 <= j < idx.len() ==> idx@[j] < hits.len(),
            all == views_of(hits@),
            counts_match(counts_view(counts@), phrases_of(select(all, idx@.take(j as int)))),
    {
        let ghost ps0 = phrases_of(select(all, idx@.take(j as int)));
        let ghost out0 = counts_view(counts@);
        let k = idx[j];
        let phrase = &hits[k].phrase;
        let ghost q = phrase@;
        proof {
            assert(idx@.take(j + 1) =~= idx@.take(j as int).push(k));
            assert(phrases_of(select(all, idx@.take(j + 1))) =~= ps0.push(q));
            lemma_count_le_len(ps0, q);
        }
        match find_count(&counts, phrase) {
            Some(pos) => {
                let old_count = counts[pos].count;
                assert(old_count == out0[pos as int].1);
                assert(ps0.len() == j);
                let updated = PhraseCount { phrase: counts[pos].phrase.clone(), count: old_count + 1 };
                counts.set(pos, updated);
                proof {
                    lemma_counts_bump(out0, ps0, pos as int, q);
                    assert(counts_view(counts@) =~= out0.update(pos as int, (q, old_count + 1)));
                }
            },
            None => {
                counts.push(PhraseCount { phrase: phrase.clone(), count: 1 });
                proof {
                    lemma_counts_add(out0, ps0, q);
                    assert(counts_view(counts@) =~= out0.push((q, 1)));
                }
            },
        }
    }
    assert(idx@.take(idx.len() as int) =~= idx@);
    counts
}

proof fn lemma_sum_nonneg(s: Seq<(Seq<char>, int)>)
    requires
        forall|i: int| 0 <= i < s.len() ==> s[i].1 >= 0,
    ensures
        sum_counts(s) >= 0,
    decreases s.len(),
{
    if s.len() > 0 {
        lemma_sum_nonneg(s.drop_last());
    }
}

/// Whether `a` ranks before `b`: more hits first, then lexicographically.
fn count_ranks_before(a: &PhraseCount, b: &PhraseCount) -> (r: bool)
    ensures
        r == ranks_before(a@, b@),
{
    a.count > b.count || (a.count == b.count && text_less(a.phrase.as_str(), b.phrase.as_str()))
}

proof fn lemma_insert_contains<A>(s: Seq<A>, k: int, x: A)
    requires
        0 <= k <= s.len(),
    ensures
        forall|e: A| #[trigger] s.insert(k, x).contains(e) <==> (s.contains(e) || e == x),
{
    let t = s.insert(k, x);
    assert forall|e: A| #[trigger] t.contains(e) <==> (s.contains(e) || e == x) by {
        if t.contains(e) {
            let i = choose|i: int| 0 <= i < t.len() && t[i] == e;
            if i < k {
                assert(s[i] == e);
            } else if i > k {
                assert(s[i - 1] == e);
            }
        }
        if s.contains(e) {
            let i = choose|i: int| 0 <= i < s.len() && s[i] == e;
            if i < k {
                assert(t[i] == e);
            } else {
                assert(t[i + 1] == e);
            }
        }
        if e == x {
            assert(t[k] == e);
        }
    }
}

spec fn sorted_by_rank(o: Seq<(Seq<char>, int)>) -> bool {
    forall|i: int, j: int| 0 <= i < j < o.len() ==> ranks_before(o[i], o[j])
}

/// Inserting `x` at its place keeps a sequence strictly increasing under the
/// transitive relation `lt`.
proof fn lemma_insert_sorted_by<A>(o: Seq<A>, k: int, x: A, lt: spec_fn(A, A) -> bool)
    requires
        forall|a: A, b: A, c: A| #[trigger] lt(a, b) && #[trigger] lt(b, c) ==> lt(a, c),
        forall|i: int, j: int| 0 <= i < j < o.len() ==> lt(o[i], o[j]),
        0 <= k <= o.len(),
        forall|i: int| 0 <= i < k ==> lt(o[i], x),
        k < o.len() ==> lt(x, o[k]),
    ensures
        forall|i: int, j: int| 0 <= i < j < o.insert(k, x).len() ==> lt(o.insert(k, x)[i], o.insert(k, x)[j]),
{
    let o1 = o.insert(k, x);
    assert forall|i: int, j: int| 0 <= i < j < o1.len() implies lt(o1[i], o1[j]) by {
        if i < k && j > k {
            assert(lt(o[i], x));
            if j - 1 > k {
                assert(lt(x, o[k]) && lt(o[k], o[j - 1]));
            }
        } else if i == k && j - 1 > k {
            assert(lt(x, o[k]) && lt(o[k], o[j - 1]));
        }
    }
}

proof fn lemma_insert_sorted(o: Seq<(Seq<char>, int)>, k: int, x: (Seq<char>, int))
    requires
        sorted_by_rank(o),
        0 <= k <= o.len(),
        forall|i: int| 0 <= i < k ==> ranks_before(o[i], x),
        k < o.len() ==> ranks_before(x, o[k]),
    ensures
        sorted_by_rank(o.insert(k, x)),
{
    let lt = |a: (Seq<char>, int), b: (Seq<char>, int)| ranks_before(a, b);
    assert forall|a: (Seq<char>, int), b: (Seq<char>, int), c: (Seq<char>, int)| #[trigger] lt(a, b) && #[trigger] lt(b, c) implies lt(a, c) by {
        lemma_ranks_transitive(a, b, c);
    }
    lemma_insert_sorted_by(o, k, x, lt);
}

/// Orders counts of distinct phrases by `ranks_before`.
fn sort_counts(counts: Vec<PhraseCount>) -> (r: Vec<PhraseCount>)
    requires
        forall|a: int, b: int|
            0 <= a < b < counts.len() ==> counts_view(counts@)[a].0 != counts_view(counts@)[b].0,
    ensures
        ({
            let inp = counts_view(counts@);
            let out = counts_view(r@);
            &&& sorted_by_rank(out)
            &&& forall|e: (Seq<char>, int)| out.contains(e) <==> inp.contains(e)
            &&& sum_counts(out) == sum_counts(inp)
        }),
{
    let ghost inp = counts_view(counts@);
    let mut out: Vec<PhraseCount> = Vec::new();
    proof {
        assert(inp.take(0) =~= Seq::empty());
        assert(counts_view(out@) =~= Seq::empty());
    }
    for n in 0..counts.len()
        invariant
            inp == counts_view(counts@),
            forall|a: int, b: int| 0 <= a < b < inp.len() ==> inp[a].0 != inp[b].0,
            sorted_by_rank(counts_view(out@)),
            forall|e: (Seq<char>, int)| counts_view(out@).contains(e) <==> inp.take(n as int).contains(e),
            sum_counts(counts_view(out@)) == sum_counts(inp.take(n as int)),
    {
        let ghost o0 = counts_view(out@);
        let x = counts[n].clone_count();
        let ghost xv = inp[n as int];
        proof {
            assert forall|i: int| 0 <= i < o0.len() implies o0[i].0 != xv.0 by {
                assert(o0.contains(o0[i]));
                let a = choose|a: int| 0 <= a < n && inp.take(n as int)[a] == o0[i];
            }
        }
        let mut k: usize = 0;
        while k < out.len() && !count_ranks_before(&x, &out[k])
            invariant
                k <= out.len(),
                o0 == counts_view(out@),
                x@ == xv,
                forall|i: int| 0 <= i < k ==> ranks_before(o0[i], xv),
                forall|i: int| 0 <= i < o0.len() ==> o0[i].0 != xv.0,
            decreases out.len() - k,
        {
            proof {
                lemma_ranks_total(o0[k as int], xv);
            }
            k = k + 1;
        }
        out.insert(k, x);
        proof {
            let o1 = counts_view(out@);
            assert(o1 =~= o0.insert(k as int, xv));
            lemma_sum_insert(o0, k as int, xv);
            lemma_insert_sorted(o0, k as int, xv);
            lemma_insert_contains(o0, k as int, xv);
            assert(inp.take(n + 1) =~= inp.take(n as int).insert(n as int, xv));
            lemma_insert_contains(inp.take(n as int), n as int, xv);
            assert(inp.take(n + 1).drop_last() =~= inp.take(n as int));
        }
    }
    assert(inp.take(counts.len() as int) =~= inp);
    out
}

impl PhraseCount {
    /// A copy of this count.
    pub fn clone_count(&self) -> (r: PhraseCount)
        ensures
            r@ == self@,
    {
        PhraseCount { phrase: self.phrase.clone(), count: self.count }
    }
}

/// The tally of the hits at positions `idx`.
fn tally(hits: &[LoggedHit], idx: &Vec<usize>) -> (r: Vec<PhraseCount>)
    requires
        idx.len() <= u32::MAX,
        forall|j: int| 0 <= j < idx.len() ==> idx@[j] < hits.len(),
    ensures
        is_tally(counts_view(r@), phrases_of(select(views_of(hits@), idx@))),
        sum_counts(counts_view(r@)) == idx.len(),
{
    let counts = count_phrases(hits, idx);
    let ghost inp = counts_view(counts@);
    let ghost ps = phrases_of(select(views_of(hits@), idx@));
    let sorted = sort_counts(counts);
    proof {
        let out = counts_view(sorted@);
        assert forall|i: int| 0 <= i < out.len() implies out[i].1 == count_of(ps, out[i].0)
            && out[i].1 > 0 by {
            assert(out.contains(out[i]));
            let a = choose|a: int| 0 <= a < inp.len() && inp[a] == out[i];
        }
        assert forall|p: Seq<char>| count_of(ps, p) > 0 implies exists|i: int|
            0 <= i < out.len() && out[i].0 == p by {
            let a = choose|a: int| 0 <= a < inp.len() && inp[a].0 == p;
            assert(inp.contains(inp[a]));
            let i = choose|i: int| 0 <= i < out.len() && out[i] == inp[a];
        }
    }
    sorted
}

proof fn lemma_count_le_len(ps: Seq<Seq<char>>, p: Seq<char>)
    ensures
        count_of(ps, p) <= ps.len(),
    decreases ps.len(),
{
    if ps.len() > 0 {
        lemma_count_le_len(ps.drop_last(), p);
    }
}

/// The bucket that starts at `start_ms` and holds the hits at positions `idx`.
fn finish(hits: &[LoggedHit], start_ms: i64, idx: &Vec<usize>) -> (r: StatsBucket)
    requires
        idx.len() <= u32::MAX,
        forall|j: int| 0 <= j < idx.len() ==> idx@[j] < hits.len(),
    ensures
        bucket_holds(r, start_ms as int, select(views_of(hits@), idx@)),
{
    let segments = tally(hits, idx);
    let mut count: u32 = 0;
    for i in 0..segments.len()
        invariant
            sum_counts(counts_view(segments@)) == idx.len(),
            idx.len() <= u32::MAX,
            forall|i: int| 0 <= i < segments.len() ==> segments@[i].count >= 0,
            count == sum_counts(counts_view(segments@).take(i as int)),
    {
        proof {
            let s = counts_view(segments@);
            assert(s.take(i + 1).drop_last() =~= s.take(i as int));
            lemma_sum_prefix(s, i + 1);
        }
        count = count + segments[i].count;
    }
    assert(counts_view(segments@).take(segments.len() as int) =~= counts_view(segments@));
    StatsBucket { start_ms, count, segments }
}

proof fn lemma_sum_prefix(s: Seq<(Seq<char>, int)>, n: int)
    requires
        0 <= n <= s.len(),
        forall|i: int| 0 <= i < s.len() ==> s[i].1 >= 0,
    ensures
        sum_counts(s.take(n)) <= sum_counts(s),
    decreases s.len(),
{
    if n < s.len() {
        lemma_sum_prefix(s.drop_last(), n);
        assert(s.drop_last().take(n) =~= s.take(n));
        lemma_sum_nonneg(s.drop_last());
    } else {
        assert(s.take(n) =~= s);
    }
}


/// Earliest timestamp of a non-empty sequence of hits.
pub open spec fn min_ms(hs: Seq<(int, Seq<char>)>) -> int
    decreases hs.len(),
{
    if hs.len() <= 1 {
        hs[0].0
    } else {
        let m = min_ms(hs.drop_last());
        if hs.last().0 < m {
            hs.last().0
        } else {
            m
        }
    }
}

/// Start of the query window: the given start, else the earliest hit, else
/// one day before the end.
pub open spec fn window_start(hs: Seq<(int, Seq<char>)>, start_ms: Option<i64>, end_ms: int) -> int {
    match start_ms {
        Some(s) => s as int,
        None => if hs.len() == 0 {
            end_ms - DAY_MS
        } else {
            min_ms(hs)
        },
    }
}

pub open spec fn phrase_view(phrase: Option<&str>) -> Option<Seq<char>> {
    match phrase {
        Some(p) => Some(p@),
        None => None,
    }
}

/// Whether a hit belongs to the window `[start, end]` and, when a phrase is
/// given, has that phrase.
pub open spec fn in_window(h: (int, Seq<char>), start: int, end: int, phrase: Option<Seq<char>>) -> bool {
    &&& start <= h.0 <= end
    &&& match phrase {
        Some(p) => p == h.1,
        None => true,
    }
}

pub open spec fn window_hits(hs: Seq<(int, Seq<char>)>, start: int, end: int, phrase: Option<Seq<char>>) -> Seq<(int, Seq<char>)> {
    hs.filter(|h: (int, Seq<char>)| in_window(h, start, end, phrase))
}

/// `out` lists the distinct phrases of `ps`, in strictly increasing order.
pub open spec fn is_sorted_set(out: Seq<Seq<char>>, ps: Seq<Seq<char>>) -> bool {
    &&& forall|i: int, j: int| 0 <= i < j < out.len() ==> str_less(out[i], out[j])
    &&& forall|p: Seq<char>| #[trigger] out.contains(p) <==> ps.contains(p)
}

pub open spec fn strings_view(v: Seq<String>) -> Seq<Seq<char>> {
    v.map_values(|s: String| s@)
}

/// Width of the fixed buckets named `bucket`: "15m", "1h", otherwise a day.
pub open spec fn fixed_width(bucket: Seq<char>) -> int {
    if bucket == "15m"@ {
        15 * MINUTE_MS
    } else if bucket == "1h"@ {
        HOUR_MS as int
    } else {
        DAY_MS as int
    }
}

/// Fixed buckets begin at `start` rounded down to a multiple of the width.
pub open spec fn fixed_origin(start: int, width: int) -> int {
    (start / width) * width
}

/// Number of fixed buckets: from the origin up to `end` rounded up to a
/// multiple of the width, and at least one.
pub open spec fn fixed_count(start: int, end: int, width: int) -> int {
    let n = (((end + width - 1) / width) * width - fixed_origin(start, width)) / width;
    if n > 1 {
        n
    } else {
        1
    }
}

pub open spec fn fixed_starts(start: int, end: int, width: int) -> Seq<int> {
    Seq::new(fixed_count(start, end, width) as nat, |i: int| fixed_origin(start, width) + i * width)
}

/// The fixed bucket of a hit at `ms`, or -1 when it is past the last one.
pub open spec fn fixed_slot(start: int, end: int, width: int, ms: int) -> int {
    let q = (ms - fixed_origin(start, width)) / width;
    if 0 <= q < fixed_count(start, end, width) {
        q
    } else {
        -1
    }
}

/// The instants `cursor`, `cursor + step`, ... that are at most `end`.
pub open spec fn stepped_starts(cursor: int, end: int, step: int) -> Seq<int>
    decreases end + step - cursor,
    when step > 0
{
    if cursor > end {
        Seq::empty()
    } else {
        seq![cursor] + stepped_starts(cursor + step, end, step)
    }
}

/// The local month starts from `cursor` on that are at most `end`.
pub open spec fn month_starts_from(cursor: int, end: int, tz: int) -> Seq<int>
    decreases end + 32 * DAY_MS - cursor,
{
    if cursor > end || !in_calendar_range(cursor) || !(i32::MIN <= tz <= i32::MAX) {
        Seq::empty()
    } else {
        proof {
            lemma_next_month_start_advances(cursor, tz);
        }
        seq![cursor] + month_starts_from(local_next_month_start(cursor, tz), end, tz)
    }
}

/// Starts of the local weeks from the week of `start` up to `end` (at least one).
pub open spec fn week_starts(start: int, end: int, tz: int) -> Seq<int> {
    let first = local_week_start(start, tz);
    let s = stepped_starts(first, end, WEEK_MS as int);
    if s.len() == 0 {
        seq![first]
    } else {
        s
    }
}

/// Starts of the local months from the month of `start` up to `end` (at least one).
pub open spec fn month_starts(start: int, end: int, tz: int) -> Seq<int> {
    let first = local_month_start(start, tz);
    let s = month_starts_from(first, end, tz);
    if s.len() == 0 {
        seq![first]
    } else {
        s
    }
}

/// Index of the last start at or before `ms`, or -1.
pub open spec fn last_at_or_before(starts: Seq<int>, ms: int) -> int
    decreases starts.len(),
{
    if starts.len() == 0 {
        -1
    } else if starts.last() <= ms {
        starts.len() - 1
    } else {
        last_at_or_before(starts.drop_last(), ms)
    }
}

/// The bucket of a hit at `ms` among buckets with the given starts, the last
/// one ending at `end`, or -1.
pub open spec fn variable_slot(starts: Seq<int>, end: int, ms: int) -> int {
    let i = if ms <= end {
        last_at_or_before(starts, ms)
    } else {
        -1
    };
    if i < 0 {
        -1
    } else if ms < (if i + 1 < starts.len() {
        starts[i + 1]
    } else {
        end + 1
    }) {
        i
    } else {
        -1
    }
}

/// Starts of the buckets that `bucket` names: "1w" local weeks, "1mo" local
/// months, otherwise fixed widths.
pub open spec fn bucket_starts(bucket: Seq<char>, start: int, end: int, tz: int) -> Seq<int> {
    if bucket == "1w"@ {
        week_starts(start, end, tz)
    } else if bucket == "1mo"@ {
        month_starts(start, end, tz)
    } else {
        fixed_starts(start, end, fixed_width(bucket))
    }
}

/// The bucket of a hit at `ms`, or -1 when it falls in none.
pub open spec fn bucket_slot(bucket: Seq<char>, start: int, end: int, tz: int, ms: int) -> int {
    if bucket == "1w"@ || bucket == "1mo"@ {
        variable_slot(bucket_starts(bucket, start, end, tz), end, ms)
    } else {
        fixed_slot(start, end, fixed_width(bucket), ms)
    }
}

/// The hits of `kept` that fall in bucket `i` under `slot`.
pub open spec fn bucket_members(kept: Seq<(int, Seq<char>)>, slot: spec_fn(int) -> int, i: int) -> Seq<(int, Seq<char>)> {
    kept.filter(|h: (int, Seq<char>)| slot(h.0) == i)
}

pub open spec fn buckets_hold(bs: Seq<StatsBucket>, starts: Seq<int>, slot: spec_fn(int) -> int, kept: Seq<(int, Seq<char>)>) -> bool {
    &&& bs.len() == starts.len()
    &&& forall|i: int| 0 <= i < bs.len() ==> bucket_holds(#[trigger] bs[i], starts[i], bucket_members(kept, slot, i))
}

/// A layout of buckets: refused with its size when over `MAX_BUCKETS`.
pub open spec fn layout_holds(r: Result<Vec<StatsBucket>, u32>, starts: Seq<int>, slot: spec_fn(int) -> int, kept: Seq<(int, Seq<char>)>) -> bool {
    if starts.len() > MAX_BUCKETS {
        r == Err::<Vec<StatsBucket>, u32>(starts.len() as u32)
    } else {
        r matches Ok(bs) && buckets_hold(bs@, starts, slot, kept)
    }
}

/// Puts each hit of `kept` into the group of its slot.
fn group_by_slot(hits: &[LoggedHit], kept: &Vec<usize>, slots: &Vec<i64>, count: usize, Ghost(slot): Ghost<spec_fn(int) -> int>) -> (groups: Vec<Vec<usize>>)
    requires
        slots.len() == kept.len(),
        count <= MAX_BUCKETS,
        forall|j: int| 0 <= j < kept.len() ==> kept@[j] < hits.len(),
        forall|j: int| 0 <= j < kept.len() ==> slots@[j] == slot(hits@[kept@[j] as int].ms as int),
    ensures
        groups.len() == count,
        forall|i: int| 0 <= i < count ==> select(views_of(hits@), (#[trigger] groups@[i])@) == bucket_members(select(views_of(hits@), kept@), slot, i),
        forall|i: int, t: int| 0 <= i < count && 0 <= t < groups@[i].len() ==> groups@[i]@[t] < hits.len(),
        forall|i: int| 0 <= i < count ==> groups@[i].len() <= kept.len(),
{
    let ghost all = views_of(hits@);
    let mut groups: Vec<Vec<usize>> = Vec::new();
    for i in 0..count
        invariant
            groups.len() == i,
            forall|g: int| 0 <= g < i ==> (#[trigger] groups@[g])@ == Seq::<usize>::empty(),
    {
        groups.push(Vec::new());
    }
    for j in 0..kept.len()
        invariant
            groups.len() == count,
            count <= MAX_BUCKETS,
            all == views_of(hits@),
            slots.len() == kept.len(),
            forall|j: int| 0 <= j < kept.len() ==> kept@[j] < hits.len(),
            forall|j: int| 0 <= j < kept.len() ==> slots@[j] == slot(hits@[kept@[j] as int].ms as int),
            forall|i: int| 0 <= i < count ==> select(all, (#[trigger] groups@[i])@) == bucket_members(select(all, kept@.take(j as int)), slot, i),
            forall|i: int, t: int| 0 <= i < count && 0 <= t < groups@[i].len() ==> groups@[i]@[t] < hits.len(),
            forall|i: int| 0 <= i < count ==> groups@[i].len() <= j,
    {
        let ghost g0 = groups@;
        let ghost prev = select(all, kept@.take(j as int));
        let k = kept[j];
        let ghost h = all[k as int];
        assert(h.0 == hits@[k as int].ms);
        proof {
            assert(select(all, kept@.take(j + 1)) =~= prev.push(h));
            assert forall|i: int| 0 <= i < count implies bucket_members(prev.push(h), slot, i) == if slot(h.0) == i {
                bucket_members(prev, slot, i).push(h)
            } else {
                bucket_members(prev, slot, i)
            } by {
                prev.lemma_filter_push(h, |x: (int, Seq<char>)| slot(x.0) == i);
            }
        }
        let s = slots[j];
        if 0 <= s && s < count as i64 {
            let si = s as usize;
            let mut g = Vec::new();
            std::mem::swap(&mut g, &mut groups[si]);
            g.push(k);
            groups.set(si, g);
            proof {
                assert forall|i: int| 0 <= i < count implies select(all, (#[trigger] groups@[i])@) == bucket_members(select(all, kept@.take(j + 1)), slot, i) by {
                    if i == si {
                        assert(select(all, groups@[i]@) =~= select(all, g0[i]@).push(h));
                    } else {
                        assert(groups@[i] == g0[i]);
                    }
                }
            }
        } else {
            proof {
                assert forall|i: int| 0 <= i < count implies select(all, (#[trigger] groups@[i])@) == bucket_members(select(all, kept@.take(j + 1)), slot, i) by {
                    assert(slot(h.0) != i);
                }
            }
        }
    }
    assert(kept@.take(kept.len() as int) =~= kept@);
    groups
}

/// The buckets that start at `starts` and hold the groups of hits `groups`.
fn finish_all(hits: &[LoggedHit], starts: &Vec<i64>, groups: &Vec<Vec<usize>>) -> (bs: Vec<StatsBucket>)
    requires
        groups.len() == starts.len(),
        forall|i: int, t: int| 0 <= i < groups.len() && 0 <= t < groups@[i].len() ==> groups@[i]@[t] < hits.len(),
        forall|i: int| 0 <= i < groups.len() ==> groups@[i].len() <= u32::MAX,
    ensures
        bs.len() == starts.len(),
        forall|i: int| 0 <= i < bs.len() ==> bucket_holds(#[trigger] bs@[i], starts@[i] as int, select(views_of(hits@), groups@[i]@)),
{
    let mut bs: Vec<StatsBucket> = Vec::new();
    for i in 0..starts.len()
        invariant
            groups.len() == starts.len(),
            forall|i: int, t: int| 0 <= i < groups.len() && 0 <= t < groups@[i].len() ==> groups@[i]@[t] < hits.len(),
            forall|i: int| 0 <= i < groups.len() ==> groups@[i].len() <= u32::MAX,
            bs.len() == i,
            forall|g: int| 0 <= g < i ==> bucket_holds(#[trigger] bs@[g], starts@[g] as int, select(views_of(hits@), groups@[g]@)),
    {
        let b = finish(hits, starts[i], &groups[i]);
        bs.push(b);
    }
    bs
}

/// Buckets of a fixed width.
fn fixed_buckets(hits: &[LoggedHit], kept: &Vec<usize>, start_ms: i64, end_ms: i64, width: i64) -> (r: Result<Vec<StatsBucket>, u32>)
    requires
        width == 15 * MINUTE_MS || width == HOUR_MS || width == DAY_MS,
        in_start_range(start_ms as int),
        in_time_range(end_ms as int),
        kept.len() <= u32::MAX,
        forall|j: int| 0 <= j < kept.len() ==> kept@[j] < hits.len(),
        forall|j: int| 0 <= j < kept.len() ==> start_ms <= #[trigger] hits@[kept@[j] as int].ms <= end_ms,
    ensures
        layout_holds(
            r,
            fixed_starts(start_ms as int, end_ms as int, width as int),
            |ms: int| fixed_slot(start_ms as int, end_ms as int, width as int, ms),
            select(views_of(hits@), kept@),
        ),
{
    let ghost start = start_ms as int;
    let ghost end = end_ms as int;
    let ghost w = width as int;
    let aligned_start = floor_div(start_ms, width) * width;
    let aligned_end = floor_div(end_ms + width - 1, width) * width;
    proof {
        assert(aligned_start <= start_ms && start_ms - width < aligned_start) by {
            vstd::arithmetic::div_mod::lemma_fundamental_div_mod(start, w);
        }
        assert(aligned_end >= end_ms && aligned_end < end_ms + width) by {
            vstd::arithmetic::div_mod::lemma_fundamental_div_mod(end + w - 1, w);
        }
    }
    let n = floor_div(aligned_end - aligned_start, width);
    let count: i64 = if n > 1 {
        n
    } else {
        1
    };
    let ghost starts = fixed_starts(start, end, w);
    assert(count == fixed_count(start, end, w));
    if count > MAX_BUCKETS {
        return Err(#[verifier::truncate] (count as u32));
    }
    let mut slots: Vec<i64> = Vec::new();
    let ghost slot = |ms: int| fixed_slot(start, end, w, ms);
    for j in 0..kept.len()
        invariant
            slots.len() == j,
            forall|j: int| 0 <= j < kept.len() ==> kept@[j] < hits.len(),
            forall|j: int| 0 <= j < kept.len() ==> start_ms <= #[trigger] hits@[kept@[j] as int].ms <= end_ms,
            aligned_start == fixed_origin(start, w),
            aligned_start <= start_ms,
            start_ms - width < aligned_start,
            in_start_range(start_ms as int),
            in_time_range(end_ms as int),
            width <= DAY_MS,
            count == fixed_count(start, end, w),
            1 <= count <= MAX_BUCKETS,
            w == width,
            width > 0,
            slot == (|ms: int| fixed_slot(start, end, w, ms)),
            forall|t: int| 0 <= t < j ==> slots@[t] == slot(hits@[kept@[t] as int].ms as int),
    {
        let ms = hits[kept[j]].ms;
        let idx = (ms - aligned_start) / width;
        let s: i64 = if 0 <= idx && idx < count {
            idx
        } else {
            -1
        };
        slots.push(s);
    }
    let groups = group_by_slot(hits, kept, &slots, count as usize, Ghost(slot));
    let mut bucket_starts: Vec<i64> = Vec::new();
    for i in 0..count
        invariant
            bucket_starts.len() == i,
            aligned_start == fixed_origin(start, w),
            w == width,
            1 <= count <= MAX_BUCKETS,
            forall|t: int| 0 <= t < i ==> bucket_starts@[t] == aligned_start + t * width,
            in_start_range(start_ms as int),
            aligned_start <= start_ms,
            width <= DAY_MS,
            width > 0,
    {
        assert(i * width <= MAX_BUCKETS * DAY_MS) by (nonlinear_arith)
            requires
                0 <= i <= MAX_BUCKETS,
                0 < width <= DAY_MS,
        ;
        bucket_starts.push(aligned_start + i * width);
    }
    let bs = finish_all(hits, &bucket_starts, &groups);
    proof {
        assert(starts.len() == count);
        assert forall|i: int| 0 <= i < bs.len() implies bucket_holds(#[trigger] bs@[i], starts[i], bucket_members(select(views_of(hits@), kept@), slot, i)) by {
            assert(bucket_starts@[i] == starts[i]);
        }
    }
    Ok(bs)
}

pub open spec fn ints(s: Seq<i64>) -> Seq<int> {
    s.map_values(|x: i64| x as int)
}

/// The bucket, among buckets starting at `starts` and the last ending at
/// `end_ms`, of a hit at `ms`; -1 when none holds it.
fn variable_slot_of(starts: &Vec<i64>, end_ms: i64, ms: i64) -> (r: i64)
    requires
        starts.len() <= MAX_BUCKETS,
        end_ms < i64::MAX,
    ensures
        r == variable_slot(ints(starts@), end_ms as int, ms as int),
{
    let ghost ss = ints(starts@);
    if ms > end_ms {
        return -1;
    }
    let mut j = starts.len();
    assert(ss.take(j as int) =~= ss);
    while j > 0
        invariant
            j <= starts.len(),
            starts.len() <= MAX_BUCKETS,
            ss == ints(starts@),
            ms <= end_ms < i64::MAX,
            last_at_or_before(ss, ms as int) == last_at_or_before(ss.take(j as int), ms as int),
        decreases j,
    {
        assert(ss.take(j as int).drop_last() =~= ss.take(j - 1));
        if ms >= starts[j - 1] {
            let i = j - 1;
            let next_start = if i + 1 < starts.len() {
                starts[i + 1]
            } else {
                end_ms + 1
            };
            if ms < next_start {
                return i as i64;
            } else {
                return -1;
            }
        }
        j = j - 1;
    }
    -1
}

/// Buckets with the given starts, the last ending at `end_ms`.
fn fill_variable(hits: &[LoggedHit], kept: &Vec<usize>, starts: &Vec<i64>, end_ms: i64) -> (r: Result<Vec<StatsBucket>, u32>)
    requires
        kept.len() <= u32::MAX,
        forall|j: int| 0 <= j < kept.len() ==> kept@[j] < hits.len(),
        end_ms < i64::MAX,
    ensures
        layout_holds(
            r,
            ints(starts@),
            |ms: int| variable_slot(ints(starts@), end_ms as int, ms),
            select(views_of(hits@), kept@),
        ),
{
    if starts.len() > MAX_BUCKETS as usize {
        return Err(#[verifier::truncate] (starts.len() as u32));
    }
    let ghost slot = |ms: int| variable_slot(ints(starts@), end_ms as int, ms);
    let mut slots: Vec<i64> = Vec::new();
    for j in 0..kept.len()
        invariant
            slots.len() == j,
            starts.len() <= MAX_BUCKETS,
            end_ms < i64::MAX,
            forall|j: int| 0 <= j < kept.len() ==> kept@[j] < hits.len(),
            slot == (|ms: int| variable_slot(ints(starts@), end_ms as int, ms)),
            forall|t: int| 0 <= t < j ==> slots@[t] == slot(hits@[kept@[t] as int].ms as int),
    {
        let s = variable_slot_of(starts, end_ms, hits[kept[j]].ms);
        slots.push(s);
    }
    let groups = group_by_slot(hits, kept, &slots, starts.len(), Ghost(slot));
    let bs = finish_all(hits, starts, &groups);
    proof {
        assert forall|i: int| 0 <= i < bs.len() implies bucket_holds(#[trigger] bs@[i], ints(starts@)[i], bucket_members(select(views_of(hits@), kept@), slot, i)) by {
        }
    }
    Ok(bs)
}

/// Buckets of the local weeks (from Monday) from the week of `start_ms` up to `end_ms`.
fn week_buckets(hits: &[LoggedHit], kept: &Vec<usize>, start_ms: i64, end_ms: i64, tz_offset_min: i32) -> (r: Result<Vec<StatsBucket>, u32>)
    requires
        in_start_range(start_ms as int),
        in_time_range(end_ms as int),
        kept.len() <= u32::MAX,
        forall|j: int| 0 <= j < kept.len() ==> kept@[j] < hits.len(),
    ensures
        layout_holds(
            r,
            week_starts(start_ms as int, end_ms as int, tz_offset_min as int),
            |ms: int| variable_slot(week_starts(start_ms as int, end_ms as int, tz_offset_min as int), end_ms as int, ms),
            select(views_of(hits@), kept@),
        ),
{
    let ghost end = end_ms as int;
    let first = start_of_local_week(start_ms, tz_offset_min);
    let ghost all_starts = stepped_starts(first as int, end, WEEK_MS as int);
    let mut starts: Vec<i64> = Vec::new();
    let mut cursor = first;
    assert(ints(starts@) + stepped_starts(cursor as int, end, WEEK_MS as int) =~= all_starts);
    while cursor <= end_ms
        invariant
            in_time_range(end_ms as int),
            end == end_ms as int,
            first <= cursor,
            cursor <= end_ms + WEEK_MS || cursor == first,
            in_start_range(start_ms as int),
            first == local_week_start(start_ms as int, tz_offset_min as int),
            start_ms - WEEK_MS < first <= start_ms,
            all_starts == stepped_starts(first as int, end, WEEK_MS as int),
            ints(starts@) + stepped_starts(cursor as int, end, WEEK_MS as int) == all_starts,
        decreases end_ms + WEEK_MS - cursor,
    {
        let ghost s0 = ints(starts@);
        starts.push(cursor);
        proof {
            assert(ints(starts@) =~= s0.push(cursor as int));
            assert(stepped_starts(cursor as int, end, WEEK_MS as int) == seq![cursor as int] + stepped_starts(cursor + WEEK_MS, end, WEEK_MS as int));
            assert(s0 + stepped_starts(cursor as int, end, WEEK_MS as int) =~= s0.push(cursor as int) + stepped_starts(cursor + WEEK_MS, end, WEEK_MS as int));
        }
        cursor = cursor + WEEK_MS;
    }
    assert(stepped_starts(cursor as int, end, WEEK_MS as int) =~= Seq::empty());
    assert(ints(starts@) =~= all_starts);
    if starts.len() == 0 {
        starts.push(first);
        assert(ints(starts@) =~= seq![first as int]);
    }
    fill_variable(hits, kept, &starts, end_ms)
}

/// Buckets of the local calendar months from the month of `start_ms` up to `end_ms`.
fn month_buckets(hits: &[LoggedHit], kept: &Vec<usize>, start_ms: i64, end_ms: i64, tz_offset_min: i32) -> (r: Result<Vec<StatsBucket>, u32>)
    requires
        in_start_range(start_ms as int),
        in_time_range(end_ms as int),
        kept.len() <= u32::MAX,
        forall|j: int| 0 <= j < kept.len() ==> kept@[j] < hits.len(),
    ensures
        layout_holds(
            r,
            month_starts(start_ms as int, end_ms as int, tz_offset_min as int),
            |ms: int| variable_slot(month_starts(start_ms as int, end_ms as int, tz_offset_min as int), end_ms as int, ms),
            select(views_of(hits@), kept@),
        ),
{
    let ghost end = end_ms as int;
    let ghost tz = tz_offset_min as int;
    let first = start_of_local_month(start_ms, tz_offset_min);
    let ghost all_starts = month_starts_from(first as int, end, tz);
    let mut starts: Vec<i64> = Vec::new();
    let mut cursor = first;
    assert(ints(starts@) + month_starts_from(cursor as int, end, tz) =~= all_starts);
    while cursor <= end_ms
        invariant
            in_time_range(end_ms as int),
            end == end_ms as int,
            first <= cursor,
            cursor <= end_ms + 32 * DAY_MS || cursor == first,
            start_ms - 32 * DAY_MS <= first <= start_ms,
            in_start_range(start_ms as int),
            tz == tz_offset_min as int,
            all_starts == month_starts_from(first as int, end, tz),
            ints(starts@) + month_starts_from(cursor as int, end, tz) == all_starts,
        decreases end_ms + 32 * DAY_MS - cursor,
    {
        let ghost s0 = ints(starts@);
        starts.push(cursor);
        let next = add_local_month(cursor, tz_offset_min);
        proof {
            assert(in_calendar_range(cursor as int));
            assert(month_starts_from(cursor as int, end, tz) == seq![cursor as int] + month_starts_from(next as int, end, tz));
            assert(ints(starts@) =~= s0.push(cursor as int));
            assert(s0 + month_starts_from(cursor as int, end, tz) =~= s0.push(cursor as int) + month_starts_from(next as int, end, tz));
        }
        cursor = next;
    }
    assert(month_starts_from(cursor as int, end, tz) =~= Seq::empty());
    assert(ints(starts@) =~= all_starts);
    if starts.len() == 0 {
        starts.push(first);
        assert(ints(starts@) =~= seq![first as int]);
    }
    fill_variable(hits, kept, &starts, end_ms)
}

/// Earliest timestamp of the hits, if there are any.
fn earliest_ms(hits: &[LoggedHit]) -> (r: Option<i64>)
    ensures
        match r {
            None => hits.len() == 0,
            Some(m) => hits.len() > 0 && m == min_ms(views_of(hits@)),
        },
{
    if hits.len() == 0 {
        return None;
    }
    let ghost hs = views_of(hits@);
    let mut m = hits[0].ms;
    assert(hs.take(1).len() == 1);
    for i in 1..hits.len()
        invariant
            hs == views_of(hits@),
            hits.len() >= 1,
            m == min_ms(hs.take(i as int)),
    {
        assert(hs.take(i + 1).drop_last() =~= hs.take(i as int));
        if hits[i].ms < m {
            m = hits[i].ms;
        }
    }
    assert(hs.take(hits.len() as int) =~= hs);
    Some(m)
}

/// Whether `h` is in the window `[start_ms, end_ms]` and, when a phrase is
/// given, has that phrase.
fn hit_in_window(h: &LoggedHit, start_ms: i64, end_ms: i64, phrase: Option<&str>) -> (r: bool)
    ensures
        r == in_window(h@, start_ms as int, end_ms as int, phrase_view(phrase)),
{
    start_ms <= h.ms && h.ms <= end_ms && match phrase {
        Some(p) => same_text(p, h.phrase.as_str()),
        None => true,
    }
}

/// Positions of the hits in the window, in order.
fn window_indices(hits: &[LoggedHit], start_ms: i64, end_ms: i64, phrase: Option<&str>) -> (kept: Vec<usize>)
    ensures
        select(views_of(hits@), kept@) == window_hits(views_of(hits@), start_ms as int, end_ms as int, phrase_view(phrase)),
        kept.len() <= hits.len(),
        forall|j: int| 0 <= j < kept.len() ==> kept@[j] < hits.len(),
        forall|j: int| 0 <= j < kept.len() ==> start_ms <= #[trigger] hits@[kept@[j] as int].ms <= end_ms,
{
    let ghost hs = views_of(hits@);
    let ghost pred = |h: (int, Seq<char>)| in_window(h, start_ms as int, end_ms as int, phrase_view(phrase));
    let mut kept: Vec<usize> = Vec::new();
    assert(hs.take(0).filter(pred) =~= Seq::empty());
    assert(select(hs, kept@) =~= Seq::empty());
    for i in 0..hits.len()
        invariant
            hs == views_of(hits@),
            pred == (|h: (int, Seq<char>)| in_window(h, start_ms as int, end_ms as int, phrase_view(phrase))),
            select(hs, kept@) == hs.take(i as int).filter(pred),
            kept.len() <= i,
            forall|j: int| 0 <= j < kept.len() ==> kept@[j] < i,
            forall|j: int| 0 <= j < kept.len() ==> start_ms <= #[trigger] hits@[kept@[j] as int].ms <= end_ms,
    {
        proof {
            assert(hs.take(i + 1) =~= hs.take(i as int).push(hs[i as int]));
            hs.take(i as int).lemma_filter_push(hs[i as int], pred);
        }
        let ghost k0 = kept@;
        if hit_in_window(&hits[i], start_ms, end_ms, phrase) {
            kept.push(i);
            assert(select(hs, kept@) =~= select(hs, k0).push(hs[i as int]));
        }
    }
    assert(hs.take(hits.len() as int) =~= hs);
    kept
}

proof fn lemma_insert_sorted_str(o: Seq<Seq<char>>, k: int, x: Seq<char>)
    requires
        forall|i: int, j: int| 0 <= i < j < o.len() ==> str_less(o[i], o[j]),
        0 <= k <= o.len(),
        forall|i: int| 0 <= i < k ==> str_less(o[i], x),
        k < o.len() ==> str_less(x, o[k]),
    ensures
        forall|i: int, j: int| 0 <= i < j < o.insert(k, x).len() ==> str_less(o.insert(k, x)[i], o.insert(k, x)[j]),
{
    let lt = |a: Seq<char>, b: Seq<char>| str_less(a, b);
    assert forall|a: Seq<char>, b: Seq<char>, c: Seq<char>| #[trigger] lt(a, b) && #[trigger] lt(b, c) implies lt(a, c) by {
        lemma_str_less_transitive(a, b, c);
    }
    lemma_insert_sorted_by(o, k, x, lt);
}

/// Every phrase of the log, each once, in lexicographic order.
fn phrase_set(hits: &[LoggedHit]) -> (r: Vec<String>)
    ensures
        is_sorted_set(strings_view(r@), phrases_of(views_of(hits@))),
{
    let ghost ps = phrases_of(views_of(hits@));
    let mut out: Vec<String> = Vec::new();
    assert(strings_view(out@) =~= Seq::empty());
    assert(ps.take(0) =~= Seq::empty());
    for i in 0..hits.len()
        invariant
            ps == phrases_of(views_of(hits@)),
            is_sorted_set(strings_view(out@), ps.take(i as int)),
    {
        let ghost o0 = strings_view(out@);
        let p = &hits[i].phrase;
        let ghost q = p@;
        assert(q == ps[i as int]);
        let mut k: usize = 0;
        while k < out.len() && text_less(out[k].as_str(), p.as_str())
            invariant
                k <= out.len(),
                o0 == strings_view(out@),
                q == p@,
                forall|t: int| 0 <= t < k ==> str_less(o0[t], q),
            decreases out.len() - k,
        {
            k = k + 1;
        }
        proof {
            assert(ps.take(i + 1) =~= ps.take(i as int).insert(i as int, q));
            lemma_insert_contains(ps.take(i as int), i as int, q);
        }
        if k < out.len() && same_text(out[k].as_str(), p.as_str()) {
            assert(o0.contains(q)) by {
                assert(o0[k as int] == q);
            }
        } else {
            proof {
                if k < out.len() {
                    lemma_str_less_total(q, o0[k as int]);
                }
                lemma_insert_sorted_str(o0, k as int, q);
                lemma_insert_contains(o0, k as int, q);
            }
            out.insert(k, p.clone());
            assert(strings_view(out@) =~= o0.insert(k as int, q));
        }
    }
    assert(ps.take(hits.len() as int) =~= ps);
    out
}

/// Width of the fixed buckets named `bucket`: "15m" 15 minutes, "1h" an hour,
/// anything else a day.
fn bucket_width(bucket: &str) -> (r: i64)
    ensures
        r == fixed_width(bucket@),
{
    if same_text(bucket, "15m") {
        15 * MINUTE_MS
    } else if same_text(bucket, "1h") {
        HOUR_MS
    } else {
        DAY_MS
    }
}

/// Statistics of the hits of the window `[start_ms, end_ms]` (the window
/// starts at the earliest hit when `start_ms` is `None`, or a day before
/// `end_ms` when there are no hits), restricted to `phrase` when one is
/// given, bucketed by `bucket` ("15m", "1h", "1w", "1mo", anything else a
/// day) in local time at `tz_offset_min` minutes west of UTC.
pub fn query_stats(
    hits: &[LoggedHit],
    start_ms: Option<i64>,
    end_ms: i64,
    phrase: Option<&str>,
    bucket: &str,
    tz_offset_min: i32,
) -> (r: StatsResult)
    requires
        hits.len() <= u32::MAX,
        forall|i: int| 0 <= i < hits.len() ==> in_time_range(#[trigger] hits@[i].ms as int),
        in_time_range(end_ms as int),
        start_ms matches Some(s) ==> in_time_range(s as int),
    ensures
        ({
            let hs = views_of(hits@);
            let start = window_start(hs, start_ms, end_ms as int);
            let kept = window_hits(hs, start, end_ms as int, phrase_view(phrase));
            let starts = bucket_starts(bucket@, start, end_ms as int, tz_offset_min as int);
            &&& summary_holds(r, hs, kept)
            &&& if starts.len() > MAX_BUCKETS {
                &&& r.buckets.len() == 0
                &&& r.too_many == Some(#[verifier::truncate] (starts.len() as u32))
            } else {
                &&& r.too_many is None
                &&& buckets_hold(
                    r.buckets@,
                    starts,
                    slot_of(bucket@, start, end_ms as int, tz_offset_min as int),
                    kept,
                )
            }
        }),
{
    let ghost hs = views_of(hits@);
    let start = match start_ms {
        Some(s) => s,
        None => match earliest_ms(hits) {
            Some(m) => m,
            None => end_ms - DAY_MS,
        },
    };
    proof {
        if start_ms is None && hits.len() > 0 {
            lemma_min_ms_is_a_hit(hs);
            let i = choose|i: int| 0 <= i < hs.len() && hs[i].0 == min_ms(hs);
            assert(in_time_range(hits@[i].ms as int));
        }
    }
    assert(start == window_start(hs, start_ms, end_ms as int));
    let kept = window_indices(hits, start, end_ms, phrase);
    let phrases = phrase_set(hits);
    let breakdown = tally(hits, &kept);
    let total = kept.len() as u32;
    let ghost kept_view = select(hs, kept@);
    let ghost starts = bucket_starts(bucket@, start as int, end_ms as int, tz_offset_min as int);
    let ghost slot = |ms: int| bucket_slot(bucket@, start as int, end_ms as int, tz_offset_min as int, ms);
    let layout = if same_text(bucket, "1w") {
        let r = week_buckets(hits, &kept, start, end_ms, tz_offset_min);
        assert(layout_holds(r, starts, slot, kept_view)) by {
            assert forall|ms: int| slot(ms) == variable_slot(week_starts(start as int, end_ms as int, tz_offset_min as int), end_ms as int, ms) by {}
            assert(slot =~= (|ms: int| variable_slot(week_starts(start as int, end_ms as int, tz_offset_min as int), end_ms as int, ms)));
        }
        r
    } else if same_text(bucket, "1mo") {
        let r = month_buckets(hits, &kept, start, end_ms, tz_offset_min);
        assert(layout_holds(r, starts, slot, kept_view)) by {
            assert(slot =~= (|ms: int| variable_slot(month_starts(start as int, end_ms as int, tz_offset_min as int), end_ms as int, ms)));
        }
        r
    } else {
        let width = bucket_width(bucket);
        let r = fixed_buckets(hits, &kept, start, end_ms, width);
        assert(layout_holds(r, starts, slot, kept_view)) by {
            assert(slot =~= (|ms: int| fixed_slot(start as int, end_ms as int, width as int, ms)));
        }
        r
    };
    match layout {
        Ok(buckets) => StatsResult { total, buckets, breakdown, phrases, too_many: None },
        Err(too_many) => StatsResult {
            total,
            buckets: Vec::new(),
            breakdown,
            phrases,
            too_many: Some(too_many),
        },
    }
}

proof fn lemma_min_ms_is_a_hit(hs: Seq<(int, Seq<char>)>)
    requires
        hs.len() > 0,
    ensures
        exists|i: int| 0 <= i < hs.len() && hs[i].0 == min_ms(hs),
    decreases hs.len(),
{
    if hs.len() == 1 {
        assert(hs[0].0 == min_ms(hs));
    } else {
        lemma_min_ms_is_a_hit(hs.drop_last());
        let i = choose|i: int| 0 <= i < hs.drop_last().len() && hs.drop_last()[i].0 == min_ms(hs.drop_last());
        if hs.last().0 < min_ms(hs.drop_last()) {
            assert(hs[hs.len() - 1].0 == min_ms(hs));
        } else {
            assert(hs[i].0 == min_ms(hs));
        }
    }
}

pub open spec fn increasing(s: Seq<int>) -> bool {
    forall|i: int, j: int| 0 <= i < j < s.len() ==> s[i] < s[j]
}

proof fn lemma_last_at_or_before(starts: Seq<int>, ms: int)
    requires
        starts.len() > 0,
        increasing(starts),
        starts[0] <= ms,
    ensures
        0 <= last_at_or_before(starts, ms) < starts.len(),
        starts[last_at_or_before(starts, ms)] <= ms,
        last_at_or_before(starts, ms) + 1 < starts.len() ==> ms < starts[last_at_or_before(starts, ms) + 1],
    decreases starts.len(),
{
    if starts.last() > ms {
        let p = starts.drop_last();
        assert(increasing(p));
        lemma_last_at_or_before(p, ms);
    }
}

/// With increasing bucket starts, a hit from the first start up to the end
/// falls in exactly the bucket whose span holds it.
pub proof fn lemma_variable_slot_spans(starts: Seq<int>, end: int, ms: int)
    requires
        starts.len() > 0,
        increasing(starts),
        starts[0] <= ms <= end,
    ensures
        ({
            let i = variable_slot(starts, end, ms);
            &&& 0 <= i < starts.len()
            &&& starts[i] <= ms
            &&& i + 1 < starts.len() ==> ms < starts[i + 1]
        }),
{
    lemma_last_at_or_before(starts, ms);
}

proof fn lemma_stepped_starts(cursor: int, end: int, step: int)
    requires
        step > 0,
    ensures
        increasing(stepped_starts(cursor, end, step)),
        stepped_starts(cursor, end, step).len() > 0 ==> stepped_starts(cursor, end, step)[0] == cursor,
        forall|i: int| 0 <= i < stepped_starts(cursor, end, step).len() ==> cursor <= #[trigger] stepped_starts(cursor, end, step)[i],
    decreases end + step - cursor,
{
    if cursor <= end {
        lemma_stepped_starts(cursor + step, end, step);
        let rest = stepped_starts(cursor + step, end, step);
        let s = stepped_starts(cursor, end, step);
        assert(s == seq![cursor] + rest);
        assert forall|i: int, j: int| 0 <= i < j < s.len() implies s[i] < s[j] by {
            if i > 0 {
                assert(s[i] == rest[i - 1] && s[j] == rest[j - 1]);
            } else {
                assert(s[j] == rest[j - 1]);
            }
        }
    }
}

proof fn lemma_month_starts_from(cursor: int, end: int, tz: int)
    ensures
        increasing(month_starts_from(cursor, end, tz)),
        month_starts_from(cursor, end, tz).len() > 0 ==> month_starts_from(cursor, end, tz)[0] == cursor,
        forall|i: int| 0 <= i < month_starts_from(cursor, end, tz).len() ==> cursor <= #[trigger] month_starts_from(cursor, end, tz)[i],
    decreases end + 32 * DAY_MS - cursor,
{
    if cursor <= end && in_calendar_range(cursor) && i32::MIN <= tz <= i32::MAX {
        lemma_next_month_start_advances(cursor, tz);
        let next = local_next_month_start(cursor, tz);
        lemma_month_starts_from(next, end, tz);
        let rest = month_starts_from(next, end, tz);
        let s = month_starts_from(cursor, end, tz);
        assert(s == seq![cursor] + rest);
        assert forall|i: int, j: int| 0 <= i < j < s.len() implies s[i] < s[j] by {
            if i > 0 {
                assert(s[i] == rest[i - 1] && s[j] == rest[j - 1]);
            } else {
                assert(s[j] == rest[j - 1]);
            }
        }
    }
}

/// Every hit of a window bucketed by weeks falls in exactly one week
/// bucket: the one whose span holds it.
pub proof fn lemma_week_buckets_cover(start: int, end: int, tz: int, ms: int)
    requires
        in_start_range(start),
        i32::MIN <= tz <= i32::MAX,
        start <= ms <= end,
    ensures
        ({
            let starts = week_starts(start, end, tz);
            let i = variable_slot(starts, end, ms);
            &&& 0 <= i < starts.len()
            &&& starts[i] <= ms
            &&& i + 1 < starts.len() ==> ms < starts[i + 1]
        }),
{
    let first = local_week_start(start, tz);
    crate::calendar::lemma_week_start_bounds(start, tz);
    lemma_stepped_starts(first, end, WEEK_MS as int);
    lemma_variable_slot_spans(week_starts(start, end, tz), end, ms);
}

/// Every hit of a window bucketed by months falls in exactly one month
/// bucket: the one whose span holds it.
pub proof fn lemma_month_buckets_cover(start: int, end: int, tz: int, ms: int)
    requires
        in_start_range(start),
        i32::MIN <= tz <= i32::MAX,
        start <= ms <= end,
    ensures
        ({
            let starts = month_starts(start, end, tz);
            let i = variable_slot(starts, end, ms);
            &&& 0 <= i < starts.len()
            &&& starts[i] <= ms
            &&& i + 1 < starts.len() ==> ms < starts[i + 1]
        }),
{
    let first = local_month_start(start, tz);
    lemma_next_month_start_advances(start, tz);
    lemma_month_starts_from(first, end, tz);
    lemma_variable_slot_spans(month_starts(start, end, tz), end, ms);
}

/// A hit of the window that falls in a fixed bucket lies within that
/// bucket's span, and every hit before the end of the last bucket falls in one.
pub proof fn lemma_fixed_slot_spans(start: int, end: int, width: int, ms: int)
    requires
        width > 0,
        start <= ms,
    ensures
        fixed_slot(start, end, width, ms) >= 0 ==> ({
            let i = fixed_slot(start, end, width, ms);
            fixed_origin(start, width) + i * width <= ms < fixed_origin(start, width) + (i + 1) * width
        }),
        ms < fixed_origin(start, width) + fixed_count(start, end, width) * width ==> fixed_slot(start, end, width, ms) >= 0,
{
    let o = fixed_origin(start, width);
    vstd::arithmetic::div_mod::lemma_fundamental_div_mod(start, width);
    vstd::arithmetic::div_mod::lemma_fundamental_div_mod(ms - o, width);
    assert(o <= start) by (nonlinear_arith)
        requires
            start == width * (start / width) + start % width,
            0 <= start % width,
            o == (start / width) * width,
    ;
    let q = (ms - o) / width;
    assert(o + q * width <= ms < o + (q + 1) * width) by (nonlinear_arith)
        requires
            ms - o == width * q + (ms - o) % width,
            0 <= (ms - o) % width < width,
    ;
    if ms < o + fixed_count(start, end, width) * width {
        assert(q < fixed_count(start, end, width)) by (nonlinear_arith)
            requires
                o + q * width <= ms,
                ms < o + fixed_count(start, end, width) * width,
                width > 0,
        ;
        assert(q >= 0) by (nonlinear_arith)
            requires
                ms < o + (q + 1) * width,
                o <= ms,
                width > 0,
        {
        }
    }
}
/// The slot function of the buckets that `bucket` names.
pub open spec fn slot_of(bucket: Seq<char>, start: int, end: int, tz: int) -> spec_fn(int) -> int {
    |ms: int| bucket_slot(bucket, start, end, tz, ms)
}

/// The sum of the counts of the buckets `bs`.
pub open spec fn bucket_total(bs: Seq<StatsBucket>) -> int
    decreases bs.len(),
{
    if bs.len() == 0 {
        0
    } else {
        bucket_total(bs.drop_last()) + bs.last().count
    }
}

/// The number of hits of `kept` whose slot is one of `0..n`.
spec fn members_total(kept: Seq<(int, Seq<char>)>, slot: spec_fn(int) -> int, n: int) -> int
    decreases n,
{
    if n <= 0 {
        0
    } else {
        members_total(kept, slot, n - 1) + bucket_members(kept, slot, n - 1).len()
    }
}

proof fn lemma_members_total_push(kept: Seq<(int, Seq<char>)>, slot: spec_fn(int) -> int, x: (int, Seq<char>), n: int)
    requires
        n >= 0,
    ensures
        members_total(kept.push(x), slot, n) == members_total(kept, slot, n) + (if 0 <= slot(x.0) < n {
            1int
        } else {
            0int
        }),
    decreases n,
{
    broadcast use Seq::lemma_filter_len_push;

    if n > 0 {
        lemma_members_total_push(kept, slot, x, n - 1);
        assert(bucket_members(kept.push(x), slot, n - 1).len() == bucket_members(kept, slot, n - 1).len() + (
        if slot(x.0) == n - 1 {
            1int
        } else {
            0int
        }));
    }
}

proof fn lemma_members_total_empty(slot: spec_fn(int) -> int, n: int)
    requires
        n >= 0,
    ensures
        members_total(Seq::empty(), slot, n) == 0,
    decreases n,
{
    if n > 0 {
        lemma_members_total_empty(slot, n - 1);
        assert(bucket_members(Seq::empty(), slot, n - 1) =~= Seq::empty());
    }
}

proof fn lemma_members_total_all(kept: Seq<(int, Seq<char>)>, slot: spec_fn(int) -> int, n: int)
    requires
        n >= 0,
        forall|k: int| 0 <= k < kept.len() ==> 0 <= #[trigger] slot(kept[k].0) < n,
    ensures
        members_total(kept, slot, n) == kept.len(),
    decreases kept.len(),
{
    if kept.len() == 0 {
        assert(kept =~= Seq::empty());
        lemma_members_total_empty(slot, n);
    } else {
        let p = kept.drop_last();
        assert(p.push(kept.last()) =~= kept);
        assert forall|k: int| 0 <= k < p.len() implies 0 <= #[trigger] slot(p[k].0) < n by {
            assert(p[k] == kept[k]);
        }
        assert(0 <= slot(kept[kept.len() - 1].0) < n);
        lemma_members_total_all(p, slot, n);
        lemma_members_total_push(p, slot, kept.last(), n);
    }
}

proof fn lemma_bucket_total_members(
    bs: Seq<StatsBucket>,
    starts: Seq<int>,
    slot: spec_fn(int) -> int,
    kept: Seq<(int, Seq<char>)>,
    m: int,
)
    requires
        buckets_hold(bs, starts, slot, kept),
        0 <= m <= bs.len(),
    ensures
        bucket_total(bs.take(m)) == members_total(kept, slot, m),
    decreases m,
{
    if m > 0 {
        lemma_bucket_total_members(bs, starts, slot, kept, m - 1);
        assert(bs.take(m).drop_last() =~= bs.take(m - 1));
        assert(bucket_holds(bs[m - 1], starts[m - 1], bucket_members(kept, slot, m - 1)));
    }
}

/// When every bucketed hit falls in one of the buckets, the counts of the
/// buckets add up to the number of hits.
pub proof fn lemma_bucket_counts_add_up(
    bs: Seq<StatsBucket>,
    starts: Seq<int>,
    slot: spec_fn(int) -> int,
    kept: Seq<(int, Seq<char>)>,
)
    requires
        buckets_hold(bs, starts, slot, kept),
        forall|k: int| 0 <= k < kept.len() ==> 0 <= #[trigger] slot(kept[k].0) < bs.len(),
    ensures
        bucket_total(bs) == kept.len(),
{
    lemma_bucket_total_members(bs, starts, slot, kept, bs.len() as int);
    assert(bs.take(bs.len() as int) =~= bs);
    lemma_members_total_all(kept, slot, bs.len() as int);
}

/// In the statistics of a query, the bucket counts add up to the total:
/// every hit of the window falls in exactly one bucket. With fixed-width
/// buckets, a hit exactly at the end of the window falls in none when that
/// end is a multiple of the width past the first bucket; such hits are left
/// out here.
pub proof fn lemma_query_buckets_add_up(
    hits: Seq<(int, Seq<char>)>,
    start_ms: Option<i64>,
    end: int,
    phrase: Option<Seq<char>>,
    bucket: Seq<char>,
    tz: int,
    bs: Seq<StatsBucket>,
)
    requires
        forall|i: int| 0 <= i < hits.len() ==> in_time_range(#[trigger] hits[i].0),
        in_time_range(end),
        start_ms matches Some(s) ==> in_time_range(s as int),
        i32::MIN <= tz <= i32::MAX,
        ({
            let start = window_start(hits, start_ms, end);
            let kept = window_hits(hits, start, end, phrase);
            let width = fixed_width(bucket);
            &&& buckets_hold(bs, bucket_starts(bucket, start, end, tz), slot_of(bucket, start, end, tz), kept)
            &&& bucket != "1w"@ && bucket != "1mo"@ ==> forall|k: int|
                0 <= k < kept.len() ==> #[trigger] kept[k].0 < fixed_origin(start, width) + fixed_count(
                    start,
                    end,
                    width,
                ) * width
        }),
    ensures
        bucket_total(bs) == window_hits(hits, window_start(hits, start_ms, end), end, phrase).len(),
{
    broadcast use Seq::lemma_filter_pred;

    let start = window_start(hits, start_ms, end);
    let kept = window_hits(hits, start, end, phrase);
    let starts = bucket_starts(bucket, start, end, tz);
    let slot = slot_of(bucket, start, end, tz);
    if start_ms is None && hits.len() > 0 {
        lemma_min_ms_is_a_hit(hits);
        let i = choose|i: int| 0 <= i < hits.len() && hits[i].0 == min_ms(hits);
        assert(in_time_range(hits[i].0));
    }
    assert(in_start_range(start));
    assert forall|k: int| 0 <= k < kept.len() implies 0 <= #[trigger] slot(kept[k].0) < bs.len() by {
        let ms = kept[k].0;
        assert(in_window(kept[k], start, end, phrase));
        if bucket == "1w"@ {
            lemma_week_buckets_cover(start, end, tz, ms);
        } else if bucket == "1mo"@ {
            lemma_month_buckets_cover(start, end, tz, ms);
        } else {
            lemma_fixed_slot_spans(start, end, fixed_width(bucket), ms);
        }
    }
    lemma_bucket_counts_add_up(bs, starts, slot, kept);
}
proof fn lemma_stepped_starts_at(cursor: int, end: int, step: int, i: int)
    requires
        step > 0,
        0 <= i < stepped_starts(cursor, end, step).len(),
    ensures
        stepped_starts(cursor, end, step)[i] == cursor + i * step,
    decreases end + step - cursor,
{
    if i > 0 {
        lemma_stepped_starts_at(cursor + step, end, step, i - 1);
        assert(cursor + step + (i - 1) * step == cursor + i * step) by (nonlinear_arith);
    }
}

/// Every week bucket starts at the beginning of a local Monday.
pub proof fn lemma_week_buckets_start_on_mondays(start: int, end: int, tz: int, i: int)
    requires
        in_start_range(start),
        i32::MIN <= tz <= i32::MAX,
        0 <= i < week_starts(start, end, tz).len(),
    ensures
        days_since_monday(local_day(week_starts(start, end, tz)[i], tz)) == 0,
        local_day_start(week_starts(start, end, tz)[i], tz) == week_starts(start, end, tz)[i],
{
    let first = local_week_start(start, tz);
    let k = local_day(start, tz);
    let back = days_since_monday(k);
    let s = stepped_starts(first, end, WEEK_MS as int);
    let w = if s.len() == 0 {
        0
    } else {
        lemma_stepped_starts_at(first, end, WEEK_MS as int, i);
        i
    };
    assert(week_starts(start, end, tz)[i] == first + w * WEEK_MS);
    let day = k - back + 7 * w;
    assert(local_ms(first + w * WEEK_MS, tz) == day * DAY_MS) by (nonlinear_arith)
        requires
            first == utc_ms(k * DAY_MS, tz) - back * DAY_MS,
            day == k - back + 7 * w,
            WEEK_MS == 7 * DAY_MS,
    ;
    vstd::arithmetic::div_mod::lemma_div_multiples_vanish(day, DAY_MS as int);
    assert(day * DAY_MS == DAY_MS * day) by (nonlinear_arith);
    assert(local_day(first + w * WEEK_MS, tz) == day);
    assert(days_since_monday(day) == 0) by {
        vstd::arithmetic::div_mod::lemma_fundamental_div_mod(k + 3, 7);
        vstd::arithmetic::div_mod::lemma_fundamental_div_mod_converse(
            day + 3,
            7,
            (k + 3) / 7 + w,
            0,
        );
    }
}

proof fn lemma_month_starts_from_first(cursor: int, end: int, tz: int, i: int)
    requires
        i32::MIN <= tz <= i32::MAX,
        civil_of_day(local_day(cursor, tz)).2 == 1,
        0 <= i < month_starts_from(cursor, end, tz).len(),
    ensures
        civil_of_day(local_day(month_starts_from(cursor, end, tz)[i], tz)).2 == 1,
    decreases end + 32 * DAY_MS - cursor,
{
    if i > 0 {
        lemma_next_month_start_advances(cursor, tz);
        lemma_month_starts_on_the_first(cursor, tz);
        lemma_month_starts_from_first(local_next_month_start(cursor, tz), end, tz, i - 1);
    }
}

/// Every month bucket starts on the first day of a local month.
pub proof fn lemma_month_buckets_start_on_the_first(start: int, end: int, tz: int, i: int)
    requires
        in_start_range(start),
        i32::MIN <= tz <= i32::MAX,
        0 <= i < month_starts(start, end, tz).len(),
    ensures
        civil_of_day(local_day(month_starts(start, end, tz)[i], tz)).2 == 1,
{
    lemma_month_starts_on_the_first(start, tz);
    let first = local_month_start(start, tz);
    if month_starts_from(first, end, tz).len() > 0 {
        lemma_month_starts_from_first(first, end, tz, i);
    }
}
/// The summary of a query over the hits `hs` whose window keeps `kept`: the
/// total, the tally by phrase (adding up to the total), and the sorted
/// distinct phrases of all hits.
pub open spec fn summary_holds(r: StatsResult, hs: Seq<(int, Seq<char>)>, kept: Seq<(int, Seq<char>)>) -> bool {
    &&& r.total == kept.len()
    &&& is_tally(counts_view(r.breakdown@), phrases_of(kept))
    &&& sum_counts(counts_view(r.breakdown@)) == r.total
    &&& is_sorted_set(strings_view(r.phrases@), phrases_of(hs))
}

/// Two sequences, each strictly increasing under the asymmetric relation
/// `lt`, that hold the same elements are equal.
proof fn lemma_sorted_unique<A>(a: Seq<A>, b: Seq<A>, lt: spec_fn(A, A) -> bool)
    requires
        forall|x: A, y: A| !(#[trigger] lt(x, y) && lt(y, x)),
        forall|i: int, j: int| 0 <= i < j < a.len() ==> lt(a[i], a[j]),
        forall|i: int, j: int| 0 <= i < j < b.len() ==> lt(b[i], b[j]),
        forall|x: A| a.contains(x) <==> b.contains(x),
    ensures
        a == b,
    decreases a.len(),
{
    if a.len() == 0 {
        if b.len() > 0 {
            assert(b.contains(b[0]));
        }
        assert(a =~= b);
    } else {
        assert(a.contains(a[0]));
        let j = choose|j: int| 0 <= j < b.len() && b[j] == a[0];
        assert(b.contains(b[0]));
        let k = choose|k: int| 0 <= k < a.len() && a[k] == b[0];
        if j > 0 {
            assert(lt(b[0], b[j]));
            if k > 0 {
                assert(lt(a[0], a[k]));
            }
            assert(false);
        }
        let a1 = a.drop_first();
        let b1 = b.drop_first();
        assert forall|x: A| a1.contains(x) implies b1.contains(x) by {
            let i = choose|i: int| 0 <= i < a1.len() && a1[i] == x;
            assert(a[i + 1] == x);
            assert(lt(a[0], a[i + 1]));
            assert(a.contains(x));
            let m = choose|m: int| 0 <= m < b.len() && b[m] == x;
            assert(m != 0);
            assert(b1[m - 1] == x);
        }
        assert forall|x: A| b1.contains(x) implies a1.contains(x) by {
            let i = choose|i: int| 0 <= i < b1.len() && b1[i] == x;
            assert(b[i + 1] == x);
            assert(lt(b[0], b[i + 1]));
            assert(b.contains(x));
            let m = choose|m: int| 0 <= m < a.len() && a[m] == x;
            assert(m != 0);
            assert(a1[m - 1] == x);
        }
        assert forall|i: int, j2: int| 0 <= i < j2 < a1.len() implies lt(a1[i], a1[j2]) by {
            assert(lt(a[i + 1], a[j2 + 1]));
        }
        assert forall|i: int, j2: int| 0 <= i < j2 < b1.len() implies lt(b1[i], b1[j2]) by {
            assert(lt(b[i + 1], b[j2 + 1]));
        }
        lemma_sorted_unique(a1, b1, lt);
        assert(a =~= seq![a[0]] + a1);
        assert(b =~= seq![b[0]] + b1);
    }
}

/// A tally of a list of phrases is unique.
pub proof fn lemma_tally_unique(a: Seq<(Seq<char>, int)>, b: Seq<(Seq<char>, int)>, ps: Seq<Seq<char>>)
    requires
        is_tally(a, ps),
        is_tally(b, ps),
    ensures
        a == b,
{
    let lt = |x: (Seq<char>, int), y: (Seq<char>, int)| ranks_before(x, y);
    assert forall|x: (Seq<char>, int), y: (Seq<char>, int)| !(#[trigger] lt(x, y) && lt(y, x)) by {
        if x.0 != y.0 {
            lemma_ranks_total(x, y);
        } else {
            lemma_str_less_irreflexive(x.0);
        }
    }
    assert forall|x: (Seq<char>, int)| a.contains(x) implies b.contains(x) by {
        let i = choose|i: int| 0 <= i < a.len() && a[i] == x;
        assert(count_of(ps, x.0) > 0);
        let j = choose|j: int| 0 <= j < b.len() && b[j].0 == x.0;
        assert(b[j] == x);
    }
    assert forall|x: (Seq<char>, int)| b.contains(x) implies a.contains(x) by {
        let i = choose|i: int| 0 <= i < b.len() && b[i] == x;
        assert(count_of(ps, x.0) > 0);
        let j = choose|j: int| 0 <= j < a.len() && a[j].0 == x.0;
        assert(a[j] == x);
    }
    lemma_sorted_unique(a, b, lt);
}

/// The sorted list of the distinct phrases of a list is unique.
pub proof fn lemma_sorted_set_unique(a: Seq<Seq<char>>, b: Seq<Seq<char>>, ps: Seq<Seq<char>>)
    requires
        is_sorted_set(a, ps),
        is_sorted_set(b, ps),
    ensures
        a == b,
{
    let lt = |x: Seq<char>, y: Seq<char>| str_less(x, y);
    assert forall|x: Seq<char>, y: Seq<char>| !(#[trigger] lt(x, y) && lt(y, x)) by {
        lemma_str_less_total(x, y);
    }
    lemma_sorted_unique(a, b, lt);
}

/// The total, the tally by phrase and the list of phrases of a query depend
/// only on the hits and the window, not on how the hits are bucketed: two
/// results for the same hits and window agree on them.
pub proof fn lemma_summary_independent_of_buckets(
    r1: StatsResult,
    r2: StatsResult,
    hs: Seq<(int, Seq<char>)>,
    kept: Seq<(int, Seq<char>)>,
)
    requires
        summary_holds(r1, hs, kept),
        summary_holds(r2, hs, kept),
    ensures
        r1.total == r2.total,
        counts_view(r1.breakdown@) == counts_view(r2.breakdown@),
        strings_view(r1.phrases@) == strings_view(r2.phrases@),
{
    lemma_tally_unique(counts_view(r1.breakdown@), counts_view(r2.breakdown@), phrases_of(kept));
    lemma_sorted_set_unique(strings_view(r1.phrases@), strings_view(r2.phrases@), phrases_of(hs));
}
/// Fixed-width buckets cover the whole window `[start, end]`: the first
/// starts at `start` rounded down to a multiple of the width, each starts one
/// width after the one before, and the last ends at or after `end` (the last
/// starts before `end` unless there is a single bucket). So a hit of the
/// window falls in a bucket unless it lies exactly at the end of the last one.
pub proof fn lemma_fixed_buckets_cover_window(bucket: Seq<char>, start: int, end: int, tz: int)
    requires
        bucket != "1w"@,
        bucket != "1mo"@,
        start <= end,
    ensures
        ({
            let w = fixed_width(bucket);
            let s = bucket_starts(bucket, start, end, tz);
            &&& w == 15 * MINUTE_MS || w == HOUR_MS || w == DAY_MS
            &&& s.len() >= 1
            &&& s[0] <= start < s[0] + w
            &&& s[0] % w == 0
            &&& forall|i: int| 0 <= i < s.len() - 1 ==> #[trigger] s[i + 1] == s[i] + w
            &&& end <= s[s.len() - 1] + w
            &&& s.len() > 1 ==> s[s.len() - 1] < end
            &&& forall|ms: int| start <= ms < s[s.len() - 1] + w ==> 0 <= #[trigger] bucket_slot(bucket, start, end, tz, ms) < s.len()
        }),
{
    let w = fixed_width(bucket);
    let s = bucket_starts(bucket, start, end, tz);
    let q1 = start / w;
    let o = fixed_origin(start, w);
    vstd::arithmetic::div_mod::lemma_fundamental_div_mod(start, w);
    assert(o == q1 * w);
    assert(o <= start < o + w) by (nonlinear_arith)
        requires
            start == w * q1 + start % w,
            0 <= start % w < w,
            o == q1 * w,
    ;
    vstd::arithmetic::div_mod::lemma_mod_multiples_basic(q1, w);
    let q2 = (end + w - 1) / w;
    vstd::arithmetic::div_mod::lemma_fundamental_div_mod(end + w - 1, w);
    let ae = q2 * w;
    assert(end <= ae < end + w) by (nonlinear_arith)
        requires
            end + w - 1 == w * q2 + (end + w - 1) % w,
            0 <= (end + w - 1) % w < w,
            ae == q2 * w,
    ;
    assert(ae - o == (q2 - q1) * w) by (nonlinear_arith)
        requires
            ae == q2 * w,
            o == q1 * w,
    ;
    vstd::arithmetic::div_mod::lemma_div_multiples_vanish(q2 - q1, w);
    assert((w * (q2 - q1)) == (q2 - q1) * w) by (nonlinear_arith);
    let n = (ae - o) / w;
    assert(n == q2 - q1);
    let c = fixed_count(start, end, w);
    assert(s.len() == c);
    assert forall|i: int| 0 <= i < s.len() - 1 implies #[trigger] s[i + 1] == s[i] + w by {
        assert(o + (i + 1) * w == o + i * w + w) by (nonlinear_arith);
    }
    assert(s[s.len() - 1] == o + (c - 1) * w);
    assert(o + (c - 1) * w + w == o + c * w) by (nonlinear_arith);
    if n >= 1 {
        assert(o + n * w == ae) by (nonlinear_arith)
            requires
                n == q2 - q1,
                ae == q2 * w,
                o == q1 * w,
        ;
    } else {
        assert(q2 <= q1);
        assert(ae <= o) by (nonlinear_arith)
            requires
                q2 <= q1,
                ae == q2 * w,
                o == q1 * w,
                w > 0,
        ;
    }
    assert forall|ms: int| start <= ms < s[s.len() - 1] + w implies 0 <= #[trigger] bucket_slot(bucket, start, end, tz, ms) < s.len() by {
        lemma_fixed_slot_spans(start, end, w, ms);
    }
}
} // verus!
