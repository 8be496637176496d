use bench_plot::bench_id::GrammarError;
use bench_plot::stream::{collect_records, JsonError, ResilientStreamDeserializer, SchemaError};

const GOOD_A: &str = r#"{"id":"Fib/Prove/28db40f-2024-01-30T19_07_04-05_00-rc=100","typical":{"estimate":1.5}}"#;
const GOOD_B: &str = r#"{"id":"Fib/Verify/28db40f-2024-01-30T19_07_04-05_00-rc=200","typical":{"estimate":7,"unit":"ns"}}"#;

#[test]
fn valid_and_mismatched_values_in_order() {
    let buf = format!(
        "{}\n{{\"foo\": 1}}\n{}\n{{\"id\":\"no-slashes\",\"typical\":{{\"estimate\":2.0}}}}\n[1, 2]\n",
        GOOD_A, GOOD_B
    );
    let mut s = ResilientStreamDeserializer::new(&buf);
    let a = s.next().unwrap().unwrap();
    assert_eq!(a.id.bench_name, "Prove");
    assert_eq!(a.result.time_bits, 1.5f64.to_bits());
    match s.next().unwrap() {
        Err(JsonError::SchemaMismatch { reason, value, text }) => {
            assert_eq!(text, r#"{"foo":1}"#);
            assert_eq!(reason, SchemaError::MissingId);
            assert_eq!(value["foo"], 1);
        }
        other => panic!("unexpected {:?}", other),
    }
    let b = s.next().unwrap().unwrap();
    assert_eq!(b.id.params.params, "rc=200");
    assert_eq!(b.result.time_bits, 7.0f64.to_bits());
    match s.next().unwrap() {
        Err(JsonError::SchemaMismatch { reason, .. }) => {
            assert_eq!(reason, SchemaError::Grammar(GrammarError::WrongArity));
        }
        other => panic!("unexpected {:?}", other),
    }
    match s.next().unwrap() {
        Err(JsonError::SchemaMismatch { reason, .. }) => assert_eq!(reason, SchemaError::MissingId),
        other => panic!("unexpected {:?}", other),
    }
    assert!(s.next().is_none());
    assert!(s.next().is_none());
}

#[test]
fn missing_estimate_is_a_mismatch() {
    let buf = r#"{"id":"Fib/Prove/28db40f-2024-01-30T19_07_04-05_00-rc=100","typical":{"estimate":"x"}}"#;
    let mut s = ResilientStreamDeserializer::new(buf);
    match s.next().unwrap() {
        Err(JsonError::SchemaMismatch { reason, .. }) => assert_eq!(reason, SchemaError::MissingEstimate),
        other => panic!("unexpected {:?}", other),
    }
    assert!(s.next().is_none());
}

#[test]
fn truncated_tail_ends_the_stream() {
    let buf = format!("{} {{\"a\": true}} {{\"id\": \"x", GOOD_A);
    let mut s = ResilientStreamDeserializer::new(&buf);
    assert!(s.next().unwrap().is_ok());
    assert!(matches!(s.next().unwrap(), Err(JsonError::SchemaMismatch { .. })));
    assert!(matches!(s.next().unwrap(), Err(JsonError::Unrecoverable { .. })));
    assert!(s.next().is_none());
    assert!(s.next().is_none());
}

#[test]
fn syntax_error_in_the_middle_ends_the_stream() {
    let buf = format!("{} }} {}", GOOD_A, GOOD_B);
    let mut s = ResilientStreamDeserializer::new(&buf);
    assert!(s.next().unwrap().is_ok());
    assert!(matches!(s.next().unwrap(), Err(JsonError::Unrecoverable { .. })));
    assert!(s.next().is_none());
}

#[test]
fn empty_and_blank_buffers_yield_nothing() {
    assert!(ResilientStreamDeserializer::new("").next().is_none());
    assert!(ResilientStreamDeserializer::new(" \n\t ").next().is_none());
}

#[test]
fn collect_keeps_records_before_a_syntax_error() {
    let buf = format!("{} 42 {} {{\"id\": [", GOOD_A, GOOD_B);
    let records = collect_records(&buf);
    assert_eq!(records.len(), 2);
    assert_eq!(records[0].id.bench_name, "Prove");
    assert_eq!(records[1].id.bench_name, "Verify");
    assert!(collect_records("not json").is_empty());
}

#[test]
fn error_messages() {
    let mut s = ResilientStreamDeserializer::new(r#"{"a":1} {"#);
    let m = s.next().unwrap().unwrap_err().message();
    assert_eq!(m, r#"missing field `id`, value: {"a":1}"#);
    let m = s.next().unwrap().unwrap_err().message();
    assert!(m.contains("EOF"), "{}", m);
}

#[test]
fn unrecoverable_carries_the_parser_message() {
    let mut s = ResilientStreamDeserializer::new("[1, 2");
    match s.next().unwrap() {
        Err(JsonError::Unrecoverable { error, text }) => assert_eq!(text, error.to_string()),
        other => panic!("unexpected {:?}", other),
    }
    assert!(s.next().is_none());
}
