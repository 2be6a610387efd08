use vstd::prelude::*;

use std::collections::HashMap;

use crate::chars::trim;
use crate::inbounds::{
    configured_ids, configured_inbound_ids, first_id, first_inbound_id, ordered_inbound_ids_i64,
    storage_order,
};
use crate::json::{
    field, get_field, integer_reading, json_document, parsed_json, read_json, value_to_i64, JsonValue,
};
use crate::number::{i64_of, parse_i64};

verus! {

broadcast use vstd::std_specs::hash::group_hash_axioms;

/// A metric stored as text, with the trimmed text read as an `f64` and converted with
/// `as i64` (if it reads as one), a reading that floating point keeps out of this library.
pub struct TextReading {
    pub text: String,
    pub decimal: Option<i64>,
}

/// A metric cell of the users table, as SQLite hands it out. A `REAL` carries its value
/// converted with `as i64`.
pub enum SqlCell {
    Null,
    Integer(i64),
    Real(i64),
    Text(TextReading),
    Blob,
}

/// The metric that holds `d` for the first configured inbound.
pub open spec fn single(d: i64) -> Map<i64, i64> {
    match first_id() {
        Some(id) => Map::empty().insert(id, d),
        None => Map::empty(),
    }
}

/// The integer reading of an optional value.
pub open spec fn reading_of(v: Option<JsonValue>) -> Option<i64> {
    match v {
        Some(x) => integer_reading(x),
        None => None,
    }
}

/// `a`, or `b` where `a` is nothing.
pub open spec fn or_else(a: Option<i64>, b: Option<i64>) -> Option<i64> {
    match a {
        Some(x) => Some(x),
        None => b,
    }
}

/// The inbound of a row object: `inbID`, else `inbound_id`, else `id`.
pub open spec fn row_inbound(item: JsonValue) -> Option<i64> {
    or_else(
        reading_of(field(item, seq!['i', 'n', 'b', 'I', 'D'])),
        or_else(
            reading_of(field(item, seq!['i', 'n', 'b', 'o', 'u', 'n', 'd', '_', 'i', 'd'])),
            reading_of(field(item, seq!['i', 'd'])),
        ),
    )
}

/// The value of a row object: `data`, else `value`.
pub open spec fn row_data(item: JsonValue) -> Option<i64> {
    or_else(
        reading_of(field(item, seq!['d', 'a', 't', 'a'])),
        reading_of(field(item, seq!['v', 'a', 'l', 'u', 'e'])),
    )
}

/// The `(inbound, value)` pair an array element gives when it is an object that has both.
pub open spec fn row_of(item: JsonValue) -> Option<(i64, i64)> {
    match (row_inbound(item), row_data(item)) {
        (Some(id), Some(d)) => Some((id, d)),
        _ => None,
    }
}

/// The metric the row objects among `items` give, a later row overriding an earlier one.
pub open spec fn rows_metric(items: Seq<JsonValue>) -> Map<i64, i64>
    decreases items.len(),
{
    if items.len() == 0 {
        Map::empty()
    } else {
        let m = rows_metric(items.drop_last());
        match row_of(items.last()) {
            Some((id, d)) => m.insert(id, d),
            None => m,
        }
    }
}

/// Whether some element of `items` is a row object.
pub open spec fn has_row(items: Seq<JsonValue>) -> bool {
    exists|i: int| 0 <= i < items.len() && (#[trigger] row_of(items[i])) is Some
}

/// The metric that a plain array gives: its `i`-th readable element is the value of the
/// `i`-th configured inbound; elements beyond the configured inbounds are dropped.
pub open spec fn positional_metric(items: Seq<JsonValue>) -> Map<i64, i64>
    decreases items.len(),
{
    if items.len() == 0 {
        Map::empty()
    } else {
        let m = positional_metric(items.drop_last());
        let i = items.len() - 1;
        match integer_reading(items.last()) {
            Some(d) => if i < configured_ids().len() {
                m.insert(configured_ids()[i], d)
            } else {
                m
            },
            None => m,
        }
    }
}

/// The metric an object gives: each key that reads as an `i64` is an inbound, with the value
/// under it, a later entry overriding an earlier one.
pub open spec fn entries_metric(entries: Seq<(String, JsonValue)>) -> Map<i64, i64>
    decreases entries.len(),
{
    if entries.len() == 0 {
        Map::empty()
    } else {
        let m = entries_metric(entries.drop_last());
        match (i64_of(entries.last().0@), integer_reading(entries.last().1)) {
            (Some(id), Some(d)) => m.insert(id, d),
            _ => m,
        }
    }
}

/// Whether a metric holds nothing.
pub open spec fn is_empty_metric(m: Map<i64, i64>) -> bool {
    m.dom() =~= Set::empty()
}

/// The metric a JSON document gives, or nothing where the document says nothing usable:
/// an array of row objects gives its rows; an array without any gives its readable elements
/// by position, if any; an object gives its numeric keys, if any; a readable scalar is the
/// value of the first configured inbound.
pub open spec fn doc_metric(doc: JsonValue) -> Option<Map<i64, i64>> {
    match doc {
        JsonValue::Array(items) => if has_row(items@) {
            Some(rows_metric(items@))
        } else if !is_empty_metric(positional_metric(items@)) {
            Some(positional_metric(items@))
        } else {
            None
        },
        JsonValue::Object(entries) => if !is_empty_metric(entries_metric(entries@)) {
            Some(entries_metric(entries@))
        } else {
            None
        },
        _ => match integer_reading(doc) {
            Some(d) => Some(single(d)),
            None => None,
        },
    }
}

/// The metric stored as `text`: nothing for blank text; what its JSON document gives, where
/// it gives something; else the trimmed text read as an integer, or else as a decimal number,
/// for the first configured inbound.
pub open spec fn text_metric(text: Seq<char>, json: Option<JsonValue>, decimal: Option<i64>) -> Map<
    i64,
    i64,
> {
    let t = crate::chars::trimmed(text);
    let fallback = match i64_of(t) {
        Some(d) => single(d),
        None => match decimal {
            Some(d) => single(d),
            None => Map::empty(),
        },
    };
    if t.len() == 0 {
        Map::empty()
    } else {
        match json {
            Some(doc) => match doc_metric(doc) {
                Some(m) => m,
                None => fallback,
            },
            None => fallback,
        }
    }
}

/// The metric stored as `text`, its trimmed form read by `serde_json` (see
/// [`json_document`]) and, as `decimal`, as an `f64`.
pub open spec fn stored_metric(text: Seq<char>, decimal: Option<i64>) -> Map<i64, i64> {
    text_metric(text, parsed_json(crate::chars::trimmed(text)), decimal)
}

/// The metric a cell of the users table holds.
pub open spec fn cell_metric(cell: SqlCell) -> Map<i64, i64> {
    match cell {
        SqlCell::Integer(n) => single(n),
        SqlCell::Real(t) => single(t),
        SqlCell::Text(r) => stored_metric(r.text@, r.decimal),
        _ => Map::empty(),
    }
}

/// The metric that holds `d` for the first configured inbound.
fn single_metric(d: i64) -> (res: HashMap<i64, i64>)
    ensures
        res@ == single(d),
{
    let mut metric: HashMap<i64, i64> = HashMap::new();
    if let Some(id) = first_inbound_id() {
        metric.insert(id, d);
    }
    metric
}

/// The inbound of a row object (see [`row_inbound`]).
fn read_row_inbound(item: &JsonValue) -> (res: Option<i64>)
    ensures
        res == row_inbound(*item),
{
    let a = match get_field(item, "inbID") {
        Some(v) => value_to_i64(v),
        None => None,
    };
    proof {
        reveal_strlit("inbID");
        assert("inbID"@ =~= seq!['i', 'n', 'b', 'I', 'D']);
    }
    if a.is_some() {
        return a;
    }
    let b = match get_field(item, "inbound_id") {
        Some(v) => value_to_i64(v),
        None => None,
    };
    proof {
        reveal_strlit("inbound_id");
        assert("inbound_id"@ =~= seq!['i', 'n', 'b', 'o', 'u', 'n', 'd', '_', 'i', 'd']);
    }
    if b.is_some() {
        return b;
    }
    proof {
        reveal_strlit("id");
        assert("id"@ =~= seq!['i', 'd']);
    }
    match get_field(item, "id") {
        Some(v) => value_to_i64(v),
        None => None,
    }
}

/// The value of a row object (see [`row_data`]).
fn read_row_data(item: &JsonValue) -> (res: Option<i64>)
    ensures
        res == row_data(*item),
{
    let a = match get_field(item, "data") {
        Some(v) => value_to_i64(v),
        None => None,
    };
    proof {
        reveal_strlit("data");
        assert("data"@ =~= seq!['d', 'a', 't', 'a']);
    }
    if a.is_some() {
        return a;
    }
    proof {
        reveal_strlit("value");
        assert("value"@ =~= seq!['v', 'a', 'l', 'u', 'e']);
    }
    match get_field(item, "value") {
        Some(v) => value_to_i64(v),
        None => None,
    }
}

/// The `(inbound, value)` pair of an array element (see [`row_of`]).
fn read_row(item: &JsonValue) -> (res: Option<(i64, i64)>)
    ensures
        res == row_of(*item),
{
    match item {
        JsonValue::Object(_) => {
            let inb_id = read_row_inbound(item);
            let data = read_row_data(item);
            match (inb_id, data) {
                (Some(id), Some(d)) => Some((id, d)),
                _ => None,
            }
        },
        _ => None,
    }
}

proof fn lemma_has_row_step(items: Seq<JsonValue>, i: int)
    requires
        0 <= i < items.len(),
    ensures
        has_row(items.take(i + 1)) == (has_row(items.take(i)) || row_of(items[i]) is Some),
{
    let a = items.take(i);
    let b = items.take(i + 1);
    if has_row(a) {
        let j = choose|j: int| 0 <= j < a.len() && (#[trigger] row_of(a[j])) is Some;
        assert(b[j] == a[j]);
    }
    if row_of(items[i]) is Some {
        assert(b[i] == items[i]);
    }
    if has_row(b) {
        let j = choose|j: int| 0 <= j < b.len() && (#[trigger] row_of(b[j])) is Some;
        if j < i {
            assert(a[j] == b[j]);
        }
    }
}

/// The metric of an array of row objects, and whether it held any row.
fn read_rows(items: &Vec<JsonValue>) -> (res: (HashMap<i64, i64>, bool))
    ensures
        res.0@ == rows_metric(items@),
        res.1 == has_row(items@),
{
    let mut metric: HashMap<i64, i64> = HashMap::new();
    let mut parsed_rows = false;
    let mut i: usize = 0;
    assert(items@.take(0) =~= Seq::<JsonValue>::empty());
    while i < items.len()
        invariant
            i <= items.len(),
            metric@ == rows_metric(items@.take(i as int)),
            parsed_rows == has_row(items@.take(i as int)),
        decreases items.len() - i,
    {
        assert(items@.take(i + 1).drop_last() =~= items@.take(i as int));
        proof {
            lemma_has_row_step(items@, i as int);
        }
        if let Some((id, d)) = read_row(&items[i]) {
            metric.insert(id, d);
            parsed_rows = true;
        }
        i = i + 1;
    }
    assert(items@.take(i as int) =~= items@);
    (metric, parsed_rows)
}

/// The metric of a plain array, by position (see [`positional_metric`]).
fn read_positions(items: &Vec<JsonValue>) -> (res: HashMap<i64, i64>)
    ensures
        res@ == positional_metric(items@),
{
    let ids = configured_inbound_ids();
    let mut metric: HashMap<i64, i64> = HashMap::new();
    let mut index: usize = 0;
    assert(items@.take(0) =~= Seq::<JsonValue>::empty());
    while index < items.len()
        invariant
            index <= items.len(),
            ids@ == configured_ids(),
            metric@ == positional_metric(items@.take(index as int)),
        decreases items.len() - index,
    {
        assert(items@.take(index + 1).drop_last() =~= items@.take(index as int));
        if let Some(data) = value_to_i64(&items[index]) {
            if index < ids.len() {
                metric.insert(ids[index], data);
            }
        }
        index = index + 1;
    }
    assert(items@.take(index as int) =~= items@);
    metric
}

/// The metric of an object by its numeric keys (see [`entries_metric`]).
fn read_entries(entries: &Vec<(String, JsonValue)>) -> (res: HashMap<i64, i64>)
    ensures
        res@ == entries_metric(entries@),
{
    let mut metric: HashMap<i64, i64> = HashMap::new();
    let mut i: usize = 0;
    assert(entries@.take(0) =~= Seq::<(String, JsonValue)>::empty());
    while i < entries.len()
        invariant
            i <= entries.len(),
            metric@ == entries_metric(entries@.take(i as int)),
        decreases entries.len() - i,
    {
        assert(entries@.take(i + 1).drop_last() =~= entries@.take(i as int));
        let key = parse_i64(entries[i].0.as_str());
        let value = value_to_i64(&entries[i].1);
        if let (Some(inb_id), Some(data)) = (key, value) {
            metric.insert(inb_id, data);
        }
        i = i + 1;
    }
    assert(entries@.take(i as int) =~= entries@);
    metric
}

/// The metric a JSON document gives (see [`doc_metric`]).
pub fn metric_from_json(doc: &JsonValue) -> (res: Option<HashMap<i64, i64>>)
    ensures
        match res {
            Some(m) => doc_metric(*doc) == Some(m@),
            None => doc_metric(*doc) is None,
        },
{
    match doc {
        JsonValue::Array(items) => {
            let (metric, parsed_rows) = read_rows(items);
            if parsed_rows {
                return Some(metric);
            }
            let metric = read_positions(items);
            if !metric.is_empty() {
                return Some(metric);
            }
            None
        },
        JsonValue::Object(entries) => {
            let metric = read_entries(entries);
            if !metric.is_empty() {
                return Some(metric);
            }
            None
        },
        _ => {
            match value_to_i64(doc) {
                Some(data) => Some(single_metric(data)),
                None => None,
            }
        },
    }
}

/// The metric stored as `text` (see [`stored_metric`]); `decimal` is its trimmed form read as
/// an `f64` and converted with `as i64`, if it reads as one.
pub fn parse_i64_metric_from_text(text: &str, decimal: Option<i64>) -> (res: HashMap<i64, i64>)
    ensures
        res@ == stored_metric(text@, decimal),
{
    let trimmed = trim(text);
    if trimmed.as_str().is_empty() {
        return HashMap::new();
    }
    if let Ok(doc) = read_json(trimmed.as_str()) {
        if let Some(metric) = metric_from_json(&doc) {
            return metric;
        }
    }
    if let Some(data) = parse_i64(trimmed.as_str()) {
        return single_metric(data);
    }
    if let Some(data) = decimal {
        return single_metric(data);
    }
    HashMap::new()
}

/// The metric a cell of the users table holds (see [`cell_metric`]).
pub fn parse_i64_metric_from_sql(value: SqlCell) -> (res: HashMap<i64, i64>)
    ensures
        res@ == cell_metric(value),
{
    match value {
        SqlCell::Integer(number) => single_metric(number),
        SqlCell::Real(number) => single_metric(number),
        SqlCell::Text(reading) => parse_i64_metric_from_text(reading.text.as_str(), reading.decimal),
        _ => HashMap::new(),
    }
}

/// What `serde_json` writes for the stored rows `rows`: an array of objects, each with an
/// inbound under `inbID` and its value under `data`. It depends on `rows` alone.
pub uninterp spec fn rows_json_text(rows: Seq<(i64, i64)>) -> Seq<char>;

/// Whether the JSON value `doc` is an array of the rows `rows`, in order: each an object with
/// the row's inbound under `inbID` and its value under `data`, both integers.
pub open spec fn holds_rows(doc: JsonValue, rows: Seq<(i64, i64)>) -> bool {
    &&& crate::json::as_items(doc) is Some
    &&& crate::json::as_items(doc)->Some_0.len() == rows.len()
    &&& forall|i: int|
        0 <= i < rows.len() ==> {
            &&& field(#[trigger] crate::json::as_items(doc)->Some_0[i], seq!['i', 'n', 'b', 'I', 'D'])
                == Some(JsonValue::Int(rows[i].0))
            &&& field(crate::json::as_items(doc)->Some_0[i], seq!['d', 'a', 't', 'a']) == Some(
                JsonValue::Int(rows[i].1),
            )
        }
}

/// Whether `serde_json` reads `text` as an array of the rows `rows` (see [`holds_rows`]).
pub open spec fn reads_as_rows(text: Seq<char>, rows: Seq<(i64, i64)>) -> bool {
    json_document(text) matches Ok(doc) && holds_rows(doc, rows)
}

/// `serde_json::Value::Array` of the objects `{"inbID": id, "data": data}` for `rows`, written
/// with `to_string`. The result is named by [`rows_json_text`]. `serde_json` writes an array
/// between `[` and `]`, and its parser reads the integers it wrote back as themselves: the
/// text it writes here parses as the same rows.
#[verifier::external_body]
fn stored_rows_json(rows: &Vec<(i64, i64)>) -> (res: String)
    ensures
        res@ == rows_json_text(rows@),
        res@.len() >= 2 && res@[0] == '[' && res@.last() == ']',
        reads_as_rows(res@, rows@),
{
    let items: Vec<serde_json::Value> = rows.iter().map(|&(id, data)| {
        let mut row = serde_json::Map::new();
        row.insert("inbID".to_string(), serde_json::Value::from(id));
        row.insert("data".to_string(), serde_json::Value::from(data));
        serde_json::Value::Object(row)
    }).collect();
    serde_json::Value::Array(items).to_string()
}

/// The value a metric holds for an inbound, `0` where it holds none.
pub open spec fn value_or_zero(m: Map<i64, i64>, id: i64) -> i64 {
    if m.contains_key(id) {
        m[id]
    } else {
        0
    }
}

/// The stored rows of a metric: its inbounds in storage order, each with its value or `0`.
pub open spec fn metric_rows(m: Map<i64, i64>) -> Seq<(i64, i64)> {
    storage_order(m.dom()).map_values(|id: i64| (id, value_or_zero(m, id)))
}

/// The JSON text a metric is stored as: the configured inbounds first, then the others in
/// ascending order, each with its value (`0` where the metric has none). Read back, the text
/// gives the metric with `0` for each configured inbound it does not hold.
pub fn metric_i64_to_json(metric: &HashMap<i64, i64>) -> (res: String)
    ensures
        res@ == rows_json_text(metric_rows(metric@)),
        forall|decimal: Option<i64>| #[trigger]
            stored_metric(res@, decimal) == with_configured(metric@),
{
    let ids = ordered_inbound_ids_i64(metric);
    let mut rows: Vec<(i64, i64)> = Vec::new();
    let mut i: usize = 0;
    while i < ids.len()
        invariant
            i <= ids.len(),
            ids@ == storage_order(metric@.dom()),
            rows@ == metric_rows(metric@).take(i as int),
        decreases ids.len() - i,
    {
        let inb_id = ids[i];
        let data = match metric.get(&inb_id) {
            Some(v) => *v,
            None => 0,
        };
        rows.push((inb_id, data));
        assert(metric_rows(metric@).take(i + 1) =~= metric_rows(metric@).take(i as int).push(
            metric_rows(metric@)[i as int],
        ));
        i = i + 1;
    }
    assert(metric_rows(metric@).take(i as int) =~= metric_rows(metric@));
    let text = stored_rows_json(&rows);
    proof {
        let m = metric@;
        let doc = json_document(text@)->Ok_0;
        let items = crate::json::as_items(doc)->Some_0;
        assert(are_stored_rows(items, ids@, m)) by {
            assert forall|k: int| 0 <= k < items.len() implies {
                &&& field(#[trigger] items[k], seq!['i', 'n', 'b', 'I', 'D']) == Some(
                    JsonValue::Int(ids@[k]),
                )
                &&& field(items[k], seq!['d', 'a', 't', 'a']) == Some(
                    JsonValue::Int(value_or_zero(m, ids@[k])),
                )
            } by {
                assert(rows@[k] == (ids@[k], value_or_zero(m, ids@[k])));
            }
        }
        lemma_stored_metric_reads_back(m, ids@, doc);
        crate::chars::lemma_trimmed_when_bare(text@);
    }
    text
}

/// The JSON text of a metric that holds nothing: the configured inbounds, each with `0`.
pub fn empty_i64_metric_json() -> (res: String)
    ensures
        res@ == rows_json_text(metric_rows(Map::empty())),
{
    let metric: HashMap<i64, i64> = HashMap::new();
    metric_i64_to_json(&metric)
}

/// A metric with `0` added for each configured inbound it does not hold.
pub open spec fn with_configured(m: Map<i64, i64>) -> Map<i64, i64> {
    Map::new(
        |k: i64| m.contains_key(k) || configured_ids().contains(k),
        |k: i64| value_or_zero(m, k),
    )
}

/// The metric that lists the inbounds `ids`, each with its value in `m` or `0`.
pub open spec fn listed(ids: Seq<i64>, m: Map<i64, i64>) -> Map<i64, i64> {
    Map::new(|k: i64| ids.contains(k), |k: i64| value_or_zero(m, k))
}

/// Whether `items` are the stored rows of `m` in the order `ids`: the `i`-th is an object
/// with the `i`-th inbound under `inbID` and its value (`0` where `m` has none) under `data`.
pub open spec fn are_stored_rows(items: Seq<JsonValue>, ids: Seq<i64>, m: Map<i64, i64>) -> bool {
    &&& items.len() == ids.len()
    &&& forall|i: int|
        0 <= i < items.len() ==> {
            &&& field(#[trigger] items[i], seq!['i', 'n', 'b', 'I', 'D']) == Some(
                JsonValue::Int(ids[i]),
            )
            &&& field(items[i], seq!['d', 'a', 't', 'a']) == Some(
                JsonValue::Int(value_or_zero(m, ids[i])),
            )
        }
}

proof fn lemma_rows_prefix(items: Seq<JsonValue>, ids: Seq<i64>, m: Map<i64, i64>, k: int)
    requires
        are_stored_rows(items, ids, m),
        0 <= k <= items.len(),
    ensures
        rows_metric(items.take(k)) == listed(ids.take(k), m),
    decreases k,
{
    if k == 0 {
        assert(rows_metric(items.take(0)) =~= listed(ids.take(0), m));
    } else {
        lemma_rows_prefix(items, ids, m, k - 1);
        let item = items[k - 1];
        assert(items.take(k).drop_last() =~= items.take(k - 1));
        assert(items.take(k).last() == item);
        assert(row_inbound(item) == Some(ids[k - 1]));
        assert(row_data(item) == Some(value_or_zero(m, ids[k - 1])));
        assert forall|x: i64| ids.take(k).contains(x) <==> (ids.take(k - 1).contains(x) || x
            == ids[k - 1]) by {
            if ids.take(k).contains(x) {
                let j = choose|j: int| 0 <= j < k && ids.take(k)[j] == x;
                if j < k - 1 {
                    assert(ids.take(k - 1)[j] == x);
                }
            }
            let prev = ids.take(k - 1);
            if prev.contains(x) {
                let j = choose|j: int| 0 <= j < prev.len() && prev[j] == x;
                assert(ids.take(k)[j] == x);
            }
            if x == ids[k - 1] {
                assert(ids.take(k)[k - 1] == x);
            }
        }
        assert(rows_metric(items.take(k)) =~= listed(ids.take(k), m));
    }
}

/// A stored metric reads back as itself: a JSON array whose elements are the stored rows of
/// `m` (each an object with an inbound under `inbID` and its value under `data`, in storage
/// order) gives `m`, with `0` for each configured inbound `m` does not hold.
pub proof fn lemma_stored_metric_reads_back(
    m: Map<i64, i64>,
    ids: Seq<i64>,
    doc: JsonValue,
)
    requires
        crate::inbounds::is_storage_order(m.dom(), ids),
        crate::json::as_items(doc) matches Some(items) && are_stored_rows(items, ids, m),
    ensures
        doc_metric(doc) == Some(with_configured(m)),
        ids == storage_order(m.dom()),
{
    crate::inbounds::lemma_storage_order_unique(m.dom(), ids, storage_order(m.dom()));
    let items = crate::json::as_items(doc).unwrap();
    lemma_rows_prefix(items, ids, m, items.len() as int);
    assert(items.take(items.len() as int) =~= items);
    assert(ids.take(ids.len() as int) =~= ids);
    assert(row_of(items[0]) is Some);
    assert(has_row(items));
    let n = configured_ids().len() as int;
    assert forall|x: i64| ids.contains(x) <==> (m.contains_key(x) || configured_ids().contains(
        x,
    )) by {
        assert(ids =~= ids.take(n) + ids.skip(n));
        if ids.contains(x) {
            let j = choose|j: int| 0 <= j < ids.len() && ids[j] == x;
            if j < n {
                assert(ids.take(n)[j] == x);
            } else {
                assert(ids.skip(n)[j - n] == x);
            }
        }
        if configured_ids().contains(x) {
            let j = choose|j: int| 0 <= j < n && configured_ids()[j] == x;
            assert(ids[j] == ids.take(n)[j]);
        } else if m.contains_key(x) {
            assert(ids.skip(n).contains(x));
            let j = choose|j: int| 0 <= j < ids.len() - n && ids.skip(n)[j] == x;
            assert(ids[j + n] == x);
        }
    }
    assert(listed(ids, m) =~= with_configured(m));
}

/// Storing a metric that was read back from its stored text stores the same text: adding `0`
/// for the configured inbounds changes neither the inbounds' order nor any stored value.
pub proof fn lemma_restoring_changes_nothing(m: Map<i64, i64>)
    requires
        m.dom().finite(),
    ensures
        rows_json_text(metric_rows(with_configured(m))) == rows_json_text(metric_rows(m)),
{
    crate::inbounds::lemma_storage_order_exists(m.dom());
    let ids = storage_order(m.dom());
    let w = with_configured(m);
    let n = configured_ids().len() as int;
    assert forall|x: i64| ids.skip(n).contains(x) <==> (w.dom().contains(x)
        && !configured_ids().contains(x)) by {
        assert(ids.skip(n).contains(x) <==> (m.dom().contains(x) && !configured_ids().contains(
            x,
        )));
    }
    assert(crate::inbounds::is_storage_order(w.dom(), ids));
    crate::inbounds::lemma_storage_order_unique(w.dom(), ids, storage_order(w.dom()));
    assert forall|id: i64| value_or_zero(w, id) == value_or_zero(m, id) by {}
    assert(metric_rows(w) =~= metric_rows(m));
}

/// White space around a metric stored as text changes nothing: the text with white space
/// before and after it, the text itself and the text trimmed read as the same metric (the
/// `f64` reading of the trimmed text, the same for all three, given as `decimal`).
pub proof fn lemma_white_space_changes_no_metric(
    w1: Seq<char>,
    text: Seq<char>,
    w2: Seq<char>,
    decimal: Option<i64>,
)
    requires
        crate::chars::all_white(w1),
        crate::chars::all_white(w2),
    ensures
        stored_metric(w1 + text + w2, decimal) == stored_metric(text, decimal),
        stored_metric(crate::chars::trimmed(text), decimal) == stored_metric(text, decimal),
{
    crate::chars::lemma_trim_ignores_surrounding_white(w1, text, w2);
}

} // verus!
