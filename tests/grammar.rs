use bench_plot::bench_id::{BenchId, BenchParams, GrammarError, UtcTimestamp};
use chrono::{DateTime, Utc};

#[test]
fn parse_bench_params() {
    let s = "dd2a8e6-2024-02-20T22:48:21-05:00-rc=100";
    let params = BenchParams::try_from(s).unwrap();
    let expected_time = DateTime::parse_from_rfc3339("2024-02-20T22:48:21-05:00")
        .map(|dt| dt.with_timezone(&Utc))
        .unwrap();
    let params_expected = BenchParams {
        commit_hash: "dd2a8e6".into(),
        commit_timestamp: UtcTimestamp {
            secs: expected_time.timestamp(),
            nanos: expected_time.timestamp_subsec_nanos(),
        },
        params: "rc=100".into(),
    };
    assert_eq!(params, params_expected);
}

#[test]
fn params_timestamp_is_normalized_to_utc() {
    let params = BenchParams::try_from("dd2a8e6-2024-02-20T22:48:21-05:00-rc=100").unwrap();
    // 2024-02-21T03:48:21Z
    assert_eq!(params.commit_timestamp, UtcTimestamp { secs: 1708487301, nanos: 0 });
}

#[test]
fn underscores_in_timestamp_become_colons() {
    let params = BenchParams::try_from("28db40f-2024-01-30T19_07_04-05_00-rc=100").unwrap();
    assert_eq!(params.commit_hash, "28db40f");
    assert_eq!(params.commit_timestamp, UtcTimestamp { secs: 1706659624, nanos: 0 });
    assert_eq!(params.params, "rc=100");
}

#[test]
fn params_keep_their_hyphens() {
    let params = BenchParams::try_from("28db40f-2024-01-30T19_07_04-05_00-rc=100-extra").unwrap();
    assert_eq!(params.params, "rc=100-extra");
}

#[test]
fn four_tokens_give_empty_params() {
    let params = BenchParams::try_from("28db40f-2024-01-30T19_07_04-05_00").unwrap();
    assert_eq!(params.commit_timestamp, UtcTimestamp { secs: 1706659624, nanos: 0 });
    assert_eq!(params.params, "");
}

#[test]
fn trailing_hyphen_gives_empty_params() {
    let params = BenchParams::try_from("28db40f-2024-01-30T19_07_04-05_00-").unwrap();
    assert_eq!(params.commit_timestamp, UtcTimestamp { secs: 1706659624, nanos: 0 });
    assert_eq!(params.params, "");
}

#[test]
fn params_without_hyphen_are_malformed() {
    assert_eq!(BenchParams::try_from("rc=100"), Err(GrammarError::MalformedParams));
    assert_eq!(BenchParams::try_from(""), Err(GrammarError::MalformedParams));
}

#[test]
fn too_few_timestamp_tokens_are_malformed() {
    assert_eq!(BenchParams::try_from("abc-2024-01-30"), Err(GrammarError::MalformedParams));
    assert_eq!(BenchParams::try_from("abc-2024-01-30-"), Err(GrammarError::MalformedParams));
}

#[test]
fn bad_timestamp_is_invalid() {
    let r = BenchParams::try_from("abc-2024-13-45T99_00_00-05_00-rc=1");
    assert!(matches!(r, Err(GrammarError::InvalidTimestamp(_))));
    let r = BenchParams::try_from("abc-a-b-c-d");
    assert!(matches!(r, Err(GrammarError::InvalidTimestamp(_))));
}

#[test]
fn parse_full_identifier() {
    let id = BenchId::parse("Fibonacci-num=10/Prove/28db40f-2024-01-30T19_07_04-05_00-rc=100").unwrap();
    assert_eq!(id.group_name, "Fibonacci-num=10");
    assert_eq!(id.bench_name, "Prove");
    assert_eq!(id.params.commit_hash, "28db40f");
    assert_eq!(id.params.commit_timestamp, UtcTimestamp { secs: 1706659624, nanos: 0 });
    assert_eq!(id.params.params, "rc=100");
}

#[test]
fn identifier_with_params_as_third_segment_is_malformed() {
    // Here the third segment is `rc=100`, which has no commit hash.
    let r = BenchId::parse("Fibonacci-num=10/28db40f-2024-01-30T19_07_04-05:00/rc=100");
    assert_eq!(r, Err(GrammarError::MalformedParams));
}

#[test]
fn wrong_segment_counts_are_refused() {
    for s in ["", "a", "a/b", "a/b/c/d", "a/b/c-2024-01-30T19_07_04-05_00-x/y", "///"] {
        assert_eq!(BenchId::parse(s), Err(GrammarError::WrongArity), "{}", s);
    }
}

#[test]
fn encoded_identifier_round_trips() {
    let group = "Fibonacci-num=100";
    let name = "Prove";
    let hash = "dd2a8e6";
    let time = "2024-01-31T19:07:04-05:00";
    let params = "rc=200-x";
    let encoded = format!("{}/{}/{}-{}-{}", group, name, hash, time.replace(':', "_"), params);
    let id = BenchId::parse(&encoded).unwrap();
    assert_eq!(id.group_name, group);
    assert_eq!(id.bench_name, name);
    assert_eq!(id.params.commit_hash, hash);
    assert_eq!(id.params.commit_timestamp, UtcTimestamp { secs: 1706746024, nanos: 0 });
    assert_eq!(id.params.params, params);
}

#[test]
fn invalid_timestamp_carries_the_reason() {
    let r = BenchParams::try_from("dd2a8e6-not-a-valid-date-rc=100");
    let expected_reason = DateTime::parse_from_rfc3339("not-a-valid-date").unwrap_err().to_string();
    match r {
        Err(GrammarError::InvalidTimestamp(m)) => {
            assert_eq!(m, format!("Failed to parse string into `DateTime`: {}", expected_reason));
        }
        other => panic!("unexpected {:?}", other),
    }
}

#[test]
fn grammar_messages() {
    assert_eq!(GrammarError::WrongArity.message(), "Expected 3 bench ID elements");
    assert_eq!(GrammarError::MalformedParams.message(), "Invalid format for bench params");
    assert_eq!(GrammarError::InvalidTimestamp("x".into()).message(), "x");
}
