use rust_data_parser::document::{point_estimate, Doc};
use rust_data_parser::extract::{extract, DecodeError, ResultPoint};
use rust_data_parser::index::parse_index;
use rust_data_parser::locate::{is_measurement, locate, Entry, IndexError, IndexedMeasurement};
use rust_data_parser::render::{push_decimal, render};
use serde_cbor::Value;
use std::collections::BTreeMap;

fn text(s: &str) -> Value {
    Value::Text(s.to_string())
}

fn map_of(pairs: Vec<(&str, Value)>) -> Value {
    let mut m = BTreeMap::new();
    for (k, v) in pairs {
        m.insert(text(k), v);
    }
    Value::Map(m)
}

fn estimate_doc(t: f64) -> Value {
    let median = map_of(vec![
        ("confidence_interval", map_of(vec![("lower_bound", Value::Float(t - 1.0))])),
        ("point_estimate", Value::Float(t)),
        ("standard_error", Value::Float(0.5)),
    ]);
    let mean = map_of(vec![("point_estimate", Value::Float(t + 2.0))]);
    map_of(vec![("estimates", map_of(vec![("mean", mean), ("median", median)]))])
}

fn bytes_of(v: &Value) -> Vec<u8> {
    serde_cbor::to_vec(v).unwrap()
}

fn entry(dir: &str, name: &str) -> Entry {
    Entry {
        path: format!("data/{}/new/{}", dir, name),
        name: name.to_string(),
        parent: dir.to_string(),
    }
}

fn dir_entry(parent: &str, dir: &str) -> Entry {
    Entry { path: format!("data/{}", dir), name: dir.to_string(), parent: parent.to_string() }
}

fn located(index: i32, dir: &str, name: &str) -> IndexedMeasurement {
    IndexedMeasurement { index, path: format!("data/{}/new/{}", dir, name) }
}

fn times(points: &[ResultPoint]) -> Vec<(i32, f64)> {
    points.iter().map(|p| (p.index, f64::from_bits(p.time_bits))).collect()
}

fn text_pairs(points: &[ResultPoint]) -> Vec<(i32, String)> {
    points.iter().map(|p| (p.index, format!("{}", f64::from_bits(p.time_bits)))).collect()
}

#[test]
fn index_from_ordinal_directory_names() {
    assert_eq!(parse_index("12th fibonacci number"), Some(12));
    assert_eq!(parse_index("1th x"), Some(1));
    assert_eq!(parse_index("0th"), Some(0));
    assert_eq!(parse_index("-3th x"), Some(-3));
    assert_eq!(parse_index("+4th x"), Some(4));
    assert_eq!(parse_index("007th"), Some(7));
    assert_eq!(parse_index("5thth"), Some(5));
}

#[test]
fn index_at_the_limits_of_i32() {
    assert_eq!(parse_index("2147483647th"), Some(i32::MAX));
    assert_eq!(parse_index("-2147483648th"), Some(i32::MIN));
    assert_eq!(parse_index("2147483648th"), None);
    assert_eq!(parse_index("-2147483649th"), None);
    assert_eq!(parse_index("99999999999999999999th"), None);
}

#[test]
fn index_missing_or_malformed() {
    assert_eq!(parse_index("abc"), None);
    assert_eq!(parse_index("12"), None);
    assert_eq!(parse_index(""), None);
    assert_eq!(parse_index("th"), None);
    assert_eq!(parse_index("-th"), None);
    assert_eq!(parse_index("+th"), None);
    assert_eq!(parse_index("x12th"), None);
    assert_eq!(parse_index("12 th"), None);
    assert_eq!(parse_index(" 12th"), None);
    assert_eq!(parse_index("1t2th"), None);
}

#[test]
fn measurement_names() {
    assert!(is_measurement("measurement.bin"));
    assert!(is_measurement("measurement"));
    assert!(is_measurement("measurement_1.cbor"));
    assert!(!is_measurement("measuremen"));
    assert!(!is_measurement("Measurement.bin"));
    assert!(!is_measurement("benchmark.cbor"));
    assert!(!is_measurement("a_measurement.bin"));
    assert!(!is_measurement(""));
}

#[test]
fn locate_orders_by_index() {
    let entries = vec![
        dir_entry("data", "3th x"),
        entry("3th x", "measurement.bin"),
        dir_entry("data", "1th x"),
        entry("1th x", "measurement.bin"),
        dir_entry("data", "2th x"),
        entry("2th x", "measurement.bin"),
    ];
    let r = locate(&entries).unwrap();
    assert_eq!(
        r,
        vec![
            located(1, "1th x", "measurement.bin"),
            located(2, "2th x", "measurement.bin"),
            located(3, "3th x", "measurement.bin"),
        ]
    );
}

#[test]
fn locate_keeps_equal_indices_in_discovery_order() {
    let entries = vec![
        entry("5th b", "measurement.bin"),
        entry("2th a", "measurement.bin"),
        entry("5th a", "measurement.bin"),
        entry("2th b", "measurement.bin"),
        entry("5th c", "measurement.bin"),
    ];
    let r = locate(&entries).unwrap();
    assert_eq!(
        r,
        vec![
            located(2, "2th a", "measurement.bin"),
            located(2, "2th b", "measurement.bin"),
            located(5, "5th b", "measurement.bin"),
            located(5, "5th a", "measurement.bin"),
            located(5, "5th c", "measurement.bin"),
        ]
    );
}

#[test]
fn locate_empty_tree() {
    assert_eq!(locate(&Vec::new()).unwrap(), Vec::new());
}

#[test]
fn locate_fails_on_directory_without_th() {
    let entries = vec![
        entry("1th x", "measurement.bin"),
        entry("abc", "measurement.bin"),
        entry("zzz", "measurement.bin"),
    ];
    let r = locate(&entries);
    assert_eq!(
        r,
        Err(IndexError {
            dir: "abc".to_string(),
            path: "data/abc/new/measurement.bin".to_string(),
        })
    );
}

#[test]
fn locate_fails_on_unparsable_prefix() {
    let entries = vec![entry("twelfth", "measurement.bin")];
    assert!(locate(&entries).is_err());
    let entries = vec![entry("xth", "measurement.bin")];
    assert_eq!(locate(&entries).unwrap_err().dir, "xth".to_string());
}

#[test]
fn other_files_are_never_considered() {
    let entries = vec![
        entry("abc", "benchmark.json"),
        entry("abc", "sample.cbor"),
        entry("4th x", "estimates.cbor"),
        entry("4th x", "measurement.bin"),
        entry("not a number", "tukey.json"),
    ];
    let r = locate(&entries).unwrap();
    assert_eq!(r, vec![located(4, "4th x", "measurement.bin")]);
}

#[test]
fn pipeline_on_three_directories() {
    let entries = vec![
        entry("3th x", "measurement.bin"),
        entry("1th x", "measurement.bin"),
        entry("2th x", "measurement.bin"),
    ];
    let found = locate(&entries).unwrap();
    let by_dir = |p: &str| -> f64 {
        if p.contains("1th") {
            10.0
        } else if p.contains("2th") {
            20.0
        } else {
            30.0
        }
    };
    let contents: Vec<Vec<u8>> = found.iter().map(|m| bytes_of(&estimate_doc(by_dir(&m.path)))).collect();
    let points = extract(&found, &contents).unwrap();
    assert_eq!(times(&points), vec![(1, 10.0), (2, 20.0), (3, 30.0)]);
    assert_eq!(render(&text_pairs(&points)), "[(1, 10), (2, 20), (3, 30)]");
}

#[test]
fn document_without_estimates_is_dropped() {
    let found = vec![located(1, "1th x", "m"), located(2, "2th x", "m"), located(3, "3th x", "m")];
    let missing = map_of(vec![("mean", map_of(vec![("point_estimate", Value::Float(1.0))]))]);
    let contents = vec![bytes_of(&estimate_doc(1.5)), bytes_of(&missing), bytes_of(&estimate_doc(3.25))];
    let points = extract(&found, &contents).unwrap();
    assert_eq!(times(&points), vec![(1, 1.5), (3, 3.25)]);
}

#[test]
fn documents_of_other_shapes_are_dropped() {
    let found = vec![
        located(1, "a", "m"),
        located(2, "b", "m"),
        located(3, "c", "m"),
        located(4, "d", "m"),
        located(5, "e", "m"),
    ];
    let not_a_map = Value::Array(vec![Value::Float(1.0)]);
    let median_not_map = map_of(vec![("estimates", map_of(vec![("median", Value::Float(2.0))]))]);
    let integer_leaf = map_of(vec![(
        "estimates",
        map_of(vec![("median", map_of(vec![("point_estimate", Value::Integer(7))]))]),
    )]);
    let contents = vec![
        bytes_of(&not_a_map),
        bytes_of(&median_not_map),
        bytes_of(&integer_leaf),
        bytes_of(&Value::Null),
        bytes_of(&estimate_doc(8.0)),
    ];
    let points = extract(&found, &contents).unwrap();
    assert_eq!(times(&points), vec![(5, 8.0)]);
}

#[test]
fn undecodable_document_fails_the_dataset() {
    let found = vec![located(1, "1th x", "m"), located(2, "2th x", "m"), located(3, "3th x", "m")];
    let contents = vec![bytes_of(&estimate_doc(1.0)), vec![0xa1], vec![0xff, 0x00]];
    let r = extract(&found, &contents);
    assert_eq!(r, Err(DecodeError { path: "data/2th x/new/m".to_string() }));
}

#[test]
fn trailing_bytes_fail_decoding() {
    let found = vec![located(1, "1th x", "m")];
    let mut b = bytes_of(&estimate_doc(1.0));
    b.push(0x00);
    assert!(extract(&found, &vec![b]).is_err());
}

#[test]
fn extract_keeps_duplicates() {
    let found = vec![located(2, "2th a", "m"), located(2, "2th b", "m")];
    let contents = vec![bytes_of(&estimate_doc(4.0)), bytes_of(&estimate_doc(5.0))];
    let points = extract(&found, &contents).unwrap();
    assert_eq!(times(&points), vec![(2, 4.0), (2, 5.0)]);
}

#[test]
fn point_estimate_on_documents() {
    let leaf = 12.5f64.to_bits();
    let doc = Doc::Dict(vec![(
        Doc::Text("estimates".to_string()),
        Doc::Dict(vec![(
            Doc::Text("median".to_string()),
            Doc::Dict(vec![
                (Doc::Integer(1), Doc::Float(0)),
                (Doc::Text("point_estimate".to_string()), Doc::Float(leaf)),
            ]),
        )]),
    )]);
    assert_eq!(point_estimate(&doc), Some(leaf));
    assert_eq!(point_estimate(&Doc::Null), None);
    assert_eq!(point_estimate(&Doc::Text("estimates".to_string())), None);
    let wrong_key = Doc::Dict(vec![(Doc::Bytes(b"estimates".to_vec()), Doc::Dict(vec![]))]);
    assert_eq!(point_estimate(&wrong_key), None);
}

#[test]
fn render_empty_is_brackets() {
    assert_eq!(render(&Vec::new()), "[]");
}

#[test]
fn render_pairs() {
    let one = vec![(7, "1.25".to_string())];
    assert_eq!(render(&one), "[(7, 1.25)]");
    let many = vec![(-5, "3".to_string()), (0, "0.5".to_string()), (2147483647, "1e-7".to_string())];
    assert_eq!(render(&many), "[(-5, 3), (0, 0.5), (2147483647, 1e-7)]");
}

#[test]
fn decimal_text() {
    let mut s = String::from("x");
    push_decimal(&mut s, i32::MIN);
    assert_eq!(s, "x-2147483648");
    let mut s = String::new();
    push_decimal(&mut s, 0);
    assert_eq!(s, "0");
    let mut s = String::new();
    push_decimal(&mut s, 1090);
    assert_eq!(s, "1090");
}

#[test]
fn malformed_dataset_leaves_the_other_intact() {
    let bad = vec![entry("abc", "measurement.bin"), entry("1th x", "measurement.bin")];
    let good = vec![entry("2th y", "measurement.bin"), entry("1th y", "measurement.bin")];
    let mut outputs = Vec::new();
    for entries in [&bad, &good] {
        match locate(entries) {
            Err(e) => outputs.push(Err(e.dir.clone())),
            Ok(found) => {
                let contents: Vec<Vec<u8>> = found
                    .iter()
                    .map(|m| bytes_of(&estimate_doc(if m.index == 1 { 1.5 } else { 2.5 })))
                    .collect();
                let points = extract(&found, &contents).unwrap();
                outputs.push(Ok(render(&text_pairs(&points))));
            },
        }
    }
    assert_eq!(outputs, vec![Err("abc".to_string()), Ok("[(1, 1.5), (2, 2.5)]".to_string())]);
}
