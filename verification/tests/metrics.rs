use std::collections::HashMap;

use panel_sync::inbounds::{configured_inbound_ids, first_inbound_id, ordered_inbound_ids_i64};
use panel_sync::json::{read_json, value_to_i64, JsonValue};
use panel_sync::metric::{
    empty_i64_metric_json, metric_from_json, metric_i64_to_json, parse_i64_metric_from_sql,
    parse_i64_metric_from_text, SqlCell, TextReading,
};
use serde_json::Value;

/// The trimmed text read as an `f64` and cast, as the program reads it.
fn decimal(text: &str) -> Option<i64> {
    text.trim().parse::<f64>().ok().map(|d| d as i64)
}

fn reading(text: &str) -> TextReading {
    TextReading { text: text.to_string(), decimal: decimal(text) }
}

fn read(text: &str) -> HashMap<i64, i64> {
    parse_i64_metric_from_text(text, decimal(text))
}

fn metric(pairs: &[(i64, i64)]) -> HashMap<i64, i64> {
    pairs.iter().copied().collect()
}

/// The rows as `serde_json` writes `json!({"inbID": id, "data": data})` for each.
fn serde_rows(rows: &[(i64, Value)]) -> String {
    let items: Vec<Value> = rows
        .iter()
        .map(|(id, data)| {
            let mut m = serde_json::Map::new();
            m.insert("inbID".to_string(), Value::from(*id));
            m.insert("data".to_string(), data.clone());
            Value::Object(m)
        })
        .collect();
    Value::Array(items).to_string()
}

#[test]
fn configured_inbounds() {
    assert_eq!(configured_inbound_ids(), vec![1, 2]);
    assert_eq!(first_inbound_id(), Some(1));
}

#[test]
fn inbounds_in_storage_order() {
    assert_eq!(ordered_inbound_ids_i64(&metric(&[])), vec![1, 2]);
    assert_eq!(ordered_inbound_ids_i64(&metric(&[(5, 1), (3, 2), (1, 7), (-4, 0)])), vec![1, 2, -4, 3, 5]);
    assert_eq!(ordered_inbound_ids_i64(&metric(&[(2, 9)])), vec![1, 2]);
}

#[test]
fn empty_metrics_as_serde_json_writes_them() {
    assert_eq!(empty_i64_metric_json(), r#"[{"data":0,"inbID":1},{"data":0,"inbID":2}]"#);
    assert_eq!(empty_i64_metric_json(), serde_rows(&[(1, Value::from(0)), (2, Value::from(0))]));
}

#[test]
fn metric_json_lists_configured_then_sorted_inbounds() {
    let m = metric(&[(1, 5), (7, -3), (4, i64::MAX)]);
    let want = serde_rows(&[
        (1, Value::from(5)),
        (2, Value::from(0)),
        (4, Value::from(i64::MAX)),
        (7, Value::from(-3)),
    ]);
    assert_eq!(metric_i64_to_json(&m), want);
}

#[test]
fn stored_metric_reads_back() {
    let m = metric(&[(1, 5), (9, 11)]);
    let text = metric_i64_to_json(&m);
    let read = read(&text);
    assert_eq!(read, metric(&[(1, 5), (2, 0), (9, 11)]));
    let again = metric_i64_to_json(&read);
    assert_eq!(again, text);
}

#[test]
fn rows_of_objects() {
    let r = read(r#"[{"inbID":1,"data":5},{"inbound_id":"3","value":2.9},{"id":4}]"#);
    assert_eq!(r, metric(&[(1, 5), (3, 2)]));
    let later_wins = read(r#"[{"inbID":1,"data":5},{"id":1,"data":6}]"#);
    assert_eq!(later_wins, metric(&[(1, 6)]));
}

#[test]
fn plain_arrays_by_position() {
    assert_eq!(read("[3, \"4\", 5]"), metric(&[(1, 3), (2, 4)]));
    assert_eq!(read("[null, 8]"), metric(&[(2, 8)]));
    assert_eq!(read("[]"), metric(&[]));
    assert_eq!(read("[{\"x\":1}]"), metric(&[]));
}

#[test]
fn objects_by_numeric_keys() {
    assert_eq!(read(r#"{"7":9,"x":1,"2":"3"}"#), metric(&[(7, 9), (2, 3)]));
    assert_eq!(read(r#"{"x":1}"#), metric(&[]));
}

#[test]
fn scalars_and_plain_text() {
    assert_eq!(read(" 42 "), metric(&[(1, 42)]));
    assert_eq!(read("\"12\""), metric(&[(1, 12)]));
    assert_eq!(read("3.7"), metric(&[(1, 3)]));
    assert_eq!(read("1e3"), metric(&[(1, 1000)]));
    assert_eq!(read("NaN"), metric(&[(1, 0)]));
    assert_eq!(read("abc"), metric(&[]));
    assert_eq!(read("   "), metric(&[]));
    assert_eq!(read("null"), metric(&[]));
}

#[test]
fn documents_that_say_nothing() {
    assert_eq!(metric_from_json(&read_json("[{\"inbID\":3,\"data\":4}]").unwrap()), Some(metric(&[(3, 4)])));
    assert!(metric_from_json(&JsonValue::Null).is_none());
    assert!(metric_from_json(&JsonValue::Array(vec![])).is_none());
    assert_eq!(metric_from_json(&JsonValue::Int(4)), Some(metric(&[(1, 4)])));
}

#[test]
fn sql_cells() {
    assert_eq!(parse_i64_metric_from_sql(SqlCell::Integer(9)), metric(&[(1, 9)]));
    assert_eq!(parse_i64_metric_from_sql(SqlCell::Real(2)), metric(&[(1, 2)]));
    assert_eq!(parse_i64_metric_from_sql(SqlCell::Null), metric(&[]));
    assert_eq!(parse_i64_metric_from_sql(SqlCell::Blob), metric(&[]));
    assert_eq!(
        parse_i64_metric_from_sql(SqlCell::Text(reading("[{\"inbID\":2,\"data\":1}]"))),
        metric(&[(2, 1)])
    );
}

#[test]
fn integer_readings() {
    assert_eq!(value_to_i64(&JsonValue::Int(-3)), Some(-3));
    assert_eq!(value_to_i64(&JsonValue::Wide(7)), Some(7));
    assert_eq!(value_to_i64(&JsonValue::Str("+8".to_string())), Some(8));
    assert_eq!(value_to_i64(&JsonValue::Str("8.5".to_string())), None);
    assert_eq!(value_to_i64(&JsonValue::Bool(true)), None);
    assert_eq!(value_to_i64(&JsonValue::Null), None);
}

#[test]
fn white_space_around_a_metric_changes_nothing() {
    for text in ["[{\"data\":3,\"inbID\":1}]", "42", "7.9", "{\"4\":8}", "", "x"] {
        let want = read(text);
        let padded = format!(" \t\n{}\r\u{a0} ", text);
        assert_eq!(read(&padded), want, "{text:?}");
        assert_eq!(read(text.trim()), want, "{text:?}");
    }
    assert_eq!(read("  42\n"), metric(&[(1, 42)]));
}

#[test]
fn written_metrics_read_back_with_configured_zeros() {
    for pairs in [&[][..], &[(2, 8)][..], &[(7, -3), (1, 1), (3, 0)][..]] {
        let m = metric(pairs);
        let read = read(&metric_i64_to_json(&m));
        let mut want = m.clone();
        for id in configured_inbound_ids() {
            want.entry(id).or_insert(0);
        }
        assert_eq!(read, want, "{pairs:?}");
    }
}

#[test]
fn json_documents_as_serde_json_reads_them() {
    assert!(matches!(read_json("12"), Ok(JsonValue::Int(12))));
    assert!(matches!(read_json("2.5"), Ok(JsonValue::Wide(2))));
    assert!(matches!(read_json("-1e30"), Ok(JsonValue::Wide(i64::MIN))));
    assert!(matches!(read_json("18446744073709551615"), Ok(JsonValue::Wide(i64::MAX))));
    match read_json(r#"{"b":[true,null],"a":"x"}"#) {
        Ok(JsonValue::Object(entries)) => {
            assert_eq!(entries.len(), 2);
            assert_eq!(entries[0].0, "a");
            assert!(matches!(&entries[0].1, JsonValue::Str(s) if s == "x"));
            assert!(matches!(&entries[1].1, JsonValue::Array(items) if items.len() == 2));
        }
        _ => panic!("not an object"),
    }
    let err = read_json("{").err().unwrap();
    assert_eq!(err, serde_json::from_str::<Value>("{").unwrap_err().to_string());
}
