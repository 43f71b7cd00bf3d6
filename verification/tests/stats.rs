use phrasewatch::stats::{query_stats, LoggedHit};

fn hit(t: f64, phrase: &str) -> LoggedHit {
    LoggedHit {
        ms: (t * 1000.0).round() as i64,
        phrase: phrase.into(),
    }
}

fn at(ms: i64, phrase: &str) -> LoggedHit {
    LoggedHit { ms, phrase: phrase.into() }
}

#[test]
fn filters_and_buckets() {
    let hits = vec![
        hit(1_000.0, "sorry"),
        hit(1_800.0, "sorry"),
        hit(4_000.0, "my bad"),
    ];
    let stats = query_stats(&hits, Some(0), 5_000_000, Some("sorry"), "1h", 0);
    assert_eq!(stats.total, 2);
    assert_eq!(stats.breakdown.len(), 1);
    assert_eq!(stats.breakdown[0].count, 2);
    let hour_counts: u32 = stats.buckets.iter().map(|b| b.count).sum();
    assert_eq!(hour_counts, 2);
}

#[test]
fn all_phrases_stack() {
    let hits = vec![hit(10.0, "a"), hit(11.0, "b"), hit(12.0, "a")];
    let stats = query_stats(&hits, Some(0), 20_000, None, "15m", 0);
    assert_eq!(stats.total, 3);
    assert_eq!(stats.breakdown[0].phrase, "a");
    assert_eq!(stats.breakdown[0].count, 2);
}

#[test]
fn fixed_buckets_layout_and_segments() {
    let hits = vec![
        at(0, "b"),
        at(1_000, "a"),
        at(3_599_999, "b"),
        at(3_600_000, "a"),
        at(7_200_000, "c"),
    ];
    let stats = query_stats(&hits, Some(0), 7_200_000, None, "1h", 0);
    assert_eq!(stats.total, 5);
    assert_eq!(stats.too_many, None);
    let starts: Vec<i64> = stats.buckets.iter().map(|b| b.start_ms).collect();
    assert_eq!(starts, vec![0, 3_600_000]);
    assert_eq!(stats.buckets[0].count, 3);
    assert_eq!(stats.buckets[0].segments[0].phrase, "b");
    assert_eq!(stats.buckets[0].segments[0].count, 2);
    assert_eq!(stats.buckets[0].segments[1].phrase, "a");
    assert_eq!(stats.buckets[1].count, 1);
    // The hit at the aligned end falls past the last bucket.
    let in_buckets: u32 = stats.buckets.iter().map(|b| b.count).sum();
    assert_eq!(in_buckets, 4);
    let names: Vec<&str> = stats.phrases.iter().map(|s| s.as_str()).collect();
    assert_eq!(names, vec!["a", "b", "c"]);
}

#[test]
fn breakdown_orders_by_count_then_name() {
    let hits = vec![at(1, "zeta"), at(2, "alpha"), at(3, "zeta"), at(4, "beta"), at(5, "alpha")];
    let stats = query_stats(&hits, None, 10, None, "1d", 0);
    let got: Vec<(&str, u32)> = stats.breakdown.iter().map(|c| (c.phrase.as_str(), c.count)).collect();
    assert_eq!(got, vec![("alpha", 2), ("zeta", 2), ("beta", 1)]);
    assert_eq!(stats.total, 5);
}

#[test]
fn default_start_is_earliest_hit_or_a_day_back() {
    let hits = vec![at(500_000, "x"), at(200_000, "y")];
    let stats = query_stats(&hits, None, 1_000_000, None, "15m", 0);
    assert_eq!(stats.total, 2);
    assert_eq!(stats.buckets[0].start_ms, 0);
    let empty: Vec<LoggedHit> = Vec::new();
    let stats = query_stats(&empty, None, 86_400_000 * 3, None, "1d", 0);
    assert_eq!(stats.total, 0);
    let starts: Vec<i64> = stats.buckets.iter().map(|b| b.start_ms).collect();
    assert_eq!(starts, vec![86_400_000 * 2]);
    assert!(stats.phrases.is_empty());
}

#[test]
fn phrase_filter_excludes_others_but_phrase_list_keeps_all() {
    let hits = vec![at(10, "sorry"), at(20, "my bad"), at(30_000, "sorry")];
    let stats = query_stats(&hits, Some(0), 20, Some("sorry"), "15m", 0);
    assert_eq!(stats.total, 1);
    assert_eq!(stats.phrases.len(), 2);
}

#[test]
fn too_many_buckets_are_refused() {
    let hits = vec![at(0, "a")];
    let stats = query_stats(&hits, Some(0), 2_000 * 900_000 + 1, None, "15m", 0);
    assert_eq!(stats.too_many, Some(2_001));
    assert!(stats.buckets.is_empty());
    assert_eq!(stats.total, 1);
    let stats = query_stats(&hits, Some(0), 2_000 * 900_000, None, "15m", 0);
    assert_eq!(stats.too_many, None);
    assert_eq!(stats.buckets.len(), 2_000);
}

#[test]
fn week_buckets_start_on_local_mondays() {
    // 1970-01-01 was a Thursday; 1970-01-05 a Monday.
    let day = 86_400_000i64;
    let hits = vec![at(0, "a"), at(4 * day, "b"), at(11 * day + 5, "a")];
    let stats = query_stats(&hits, Some(0), 12 * day, None, "1w", 0);
    let starts: Vec<i64> = stats.buckets.iter().map(|b| b.start_ms).collect();
    assert_eq!(starts, vec![-3 * day, 4 * day, 11 * day]);
    let counts: Vec<u32> = stats.buckets.iter().map(|b| b.count).collect();
    assert_eq!(counts, vec![1, 1, 1]);
    // In UTC-05:00 (offset 300 minutes west) weeks begin five hours later.
    let stats = query_stats(&hits, Some(0), 12 * day, None, "1w", 300);
    assert_eq!(stats.buckets[0].start_ms, -3 * day + 5 * 3_600_000);
}

#[test]
fn month_buckets_follow_the_calendar() {
    let day = 86_400_000i64;
    // 2024-01-01 is day 19723; February 2024 has 29 days.
    let jan = 19_723 * day;
    let feb = jan + 31 * day;
    let mar = feb + 29 * day;
    let hits = vec![at(jan + 5, "a"), at(feb, "a"), at(mar - 1, "b"), at(mar + day, "c")];
    let stats = query_stats(&hits, Some(jan + 10 * day), mar + 2 * day, None, "1mo", 0);
    let starts: Vec<i64> = stats.buckets.iter().map(|b| b.start_ms).collect();
    assert_eq!(starts, vec![jan, feb, mar]);
    let counts: Vec<u32> = stats.buckets.iter().map(|b| b.count).collect();
    assert_eq!(counts, vec![0, 2, 1]);
    assert_eq!(stats.total, 3);
}

#[test]
fn bucket_counts_add_up_except_at_an_aligned_end() {
    let hour = 3_600_000i64;
    let hits = vec![at(0, "a"), at(hour - 1, "b"), at(hour, "a"), at(2 * hour, "c")];
    let stats = query_stats(&hits, Some(0), 2 * hour + 1, None, "1h", 0);
    let sum: u32 = stats.buckets.iter().map(|b| b.count).sum();
    assert_eq!(stats.buckets.len(), 3);
    assert_eq!(sum, stats.total);
    assert_eq!(sum, 4);
    // The window ends exactly on a bucket boundary: the hit there is counted
    // in the total but falls in no bucket.
    let stats = query_stats(&hits, Some(0), 2 * hour, None, "1h", 0);
    let sum: u32 = stats.buckets.iter().map(|b| b.count).sum();
    assert_eq!(stats.total, 4);
    assert_eq!(stats.buckets.len(), 2);
    assert_eq!(sum, 3);
}

#[test]
fn summary_does_not_depend_on_buckets() {
    let day = 86_400_000i64;
    let hits = vec![at(5, "b"), at(day, "a"), at(3 * day, "a"), at(40 * day, "c")];
    let base = query_stats(&hits, Some(0), 10 * day, None, "15m", 0);
    for bucket in ["1h", "1d", "1w", "1mo"] {
        let other = query_stats(&hits, Some(0), 10 * day, None, bucket, 0);
        assert_eq!(other.total, base.total);
        let view = |r: &phrasewatch::stats::StatsResult| -> Vec<(String, u32)> {
            r.breakdown.iter().map(|c| (c.phrase.clone(), c.count)).collect()
        };
        assert_eq!(view(&other), view(&base));
        assert_eq!(other.phrases, base.phrases);
    }
    assert_eq!(base.total, 3);
    assert_eq!(base.phrases, vec!["a".to_string(), "b".to_string(), "c".to_string()]);
}
