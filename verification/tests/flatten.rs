use hjq::{decode, for_each_primitive, index, Document, PathError, Scalar, Sink, Store};

fn number(n: u64) -> Scalar {
    Scalar::Number(serde_json::Number::from(n))
}

fn text(s: &str) -> Scalar {
    Scalar::Text(s.to_string())
}

fn document(value: serde_json::Value) -> Document {
    match value {
        serde_json::Value::Null => Document::Leaf(Scalar::Null),
        serde_json::Value::Bool(b) => Document::Leaf(Scalar::Bool(b)),
        serde_json::Value::Number(n) => Document::Leaf(Scalar::Number(n)),
        serde_json::Value::String(s) => Document::Leaf(Scalar::Text(s)),
        serde_json::Value::Array(items) => {
            Document::Array(items.into_iter().map(document).collect())
        }
        serde_json::Value::Object(entries) => Document::Object(
            entries
                .into_iter()
                .map(|(k, v)| (k.into_bytes(), document(v)))
                .collect(),
        ),
    }
}

fn parse(js: &str) -> Document {
    document(serde_json::from_str(js).expect("deserialize input"))
}

fn rows_of(doc: &Document) -> Vec<(Vec<u8>, Scalar)> {
    let mut store = Store::new();
    index(doc, &mut store).expect("plain keys");
    let mut rows = Vec::new();
    for i in 0..store.len() {
        let row = store.row(i);
        rows.push((row.key.clone(), row.value.duplicate()));
    }
    rows
}

fn lines_of(doc: &Document) -> Vec<String> {
    let mut sink = Sink::console();
    for_each_primitive(doc, &mut sink).expect("plain keys");
    match sink {
        Sink::Console { lines } => lines
            .into_iter()
            .map(|line| String::from_utf8(line).expect("utf8"))
            .collect(),
        _ => unreachable!(),
    }
}

// The values in the order in which the sink took them in.
fn values_of(doc: &Document) -> Vec<Scalar> {
    let mut sink = Sink::console();
    for_each_primitive(doc, &mut sink).expect("plain keys");
    match sink {
        Sink::Console { lines } => lines
            .into_iter()
            .map(|line| {
                let at = line
                    .windows(3)
                    .position(|w| w == b" = ")
                    .expect("separator");
                decode(&line[at + 3..]).expect("scalar")
            })
            .collect(),
        _ => unreachable!(),
    }
}

#[test]
fn count() {
    let js = r#" {"a": 0, "b": 1, "c": "foo"} "#;

    let mut total = 0;
    for _ in lines_of(&parse(js)) {
        total += 1;
    }

    assert_eq!(total, 3);
}

#[test]
fn flatten() {
    let js = r#" {"a": 3, "b": 1, "c": 4} "#;

    let mut buf = Vec::new();
    for v in values_of(&parse(js)) {
        buf.push(v);
    }

    assert_eq!(buf, vec![number(3), number(1), number(4)]);
}

#[test]
fn leaf_count_keys_and_values() {
    let doc = parse(r#"{"a":0,"b":1,"c":"foo"}"#);
    let rows = rows_of(&doc);
    assert_eq!(
        rows,
        vec![
            (b"a/".to_vec(), number(0)),
            (b"b/".to_vec(), number(1)),
            (b"c/".to_vec(), text("foo")),
        ]
    );
}

#[test]
fn nested_path_encoding() {
    let doc = parse(r#"{"x":{"y":["p","q"]}}"#);
    let rows = rows_of(&doc);
    assert_eq!(
        rows,
        vec![
            (b"x/y/0/".to_vec(), text("p")),
            (b"x/y/1/".to_vec(), text("q")),
        ]
    );
}

#[test]
fn console_lines_in_document_order() {
    let doc = Document::Object(vec![
        (b"b".to_vec(), Document::Leaf(number(1))),
        (b"a".to_vec(), Document::Leaf(text("foo"))),
        (b"n".to_vec(), Document::Leaf(Scalar::Null)),
        (b"t".to_vec(), Document::Leaf(Scalar::Bool(true))),
    ]);
    assert_eq!(
        lines_of(&doc),
        vec![
            "b/ = 1".to_string(),
            "a/ = \"foo\"".to_string(),
            "n/ = null".to_string(),
            "t/ = true".to_string(),
        ]
    );
}

#[test]
fn scalar_root_has_the_empty_key() {
    let doc = Document::Leaf(number(5));
    assert_eq!(rows_of(&doc), vec![(Vec::new(), number(5))]);
    assert_eq!(lines_of(&doc), vec![" = 5".to_string()]);
}

#[test]
fn empty_containers_give_no_rows() {
    assert_eq!(rows_of(&parse("{}")), vec![]);
    assert_eq!(rows_of(&parse("[]")), vec![]);
    let doc = parse(r#"{"a":{},"b":[],"c":1}"#);
    assert_eq!(rows_of(&doc), vec![(b"c/".to_vec(), number(1))]);
}

#[test]
fn array_indices_count_from_zero_in_decimal() {
    let items: Vec<Document> = (0..12).map(|i| Document::Leaf(number(i))).collect();
    let doc = Document::Array(items);
    let lines = lines_of(&doc);
    assert_eq!(lines.len(), 12);
    assert_eq!(lines[0], "0/ = 0");
    assert_eq!(lines[9], "9/ = 9");
    assert_eq!(lines[10], "10/ = 10");
    assert_eq!(lines[11], "11/ = 11");
}

#[test]
fn repeated_key_keeps_the_last_value_in_the_store() {
    let doc = Document::Object(vec![
        (b"a".to_vec(), Document::Leaf(number(1))),
        (b"a".to_vec(), Document::Leaf(number(2))),
    ]);
    assert_eq!(lines_of(&doc), vec!["a/ = 1".to_string(), "a/ = 2".to_string()]);
    assert_eq!(rows_of(&doc), vec![(b"a/".to_vec(), number(2))]);
}

#[test]
fn discard_sink_takes_everything_and_keeps_nothing() {
    let doc = parse(r#"{"a":[1,2,{"b":null}]}"#);
    let mut sink = Sink::discard();
    assert_eq!(for_each_primitive(&doc, &mut sink), Ok(()));
    assert!(matches!(sink, Sink::Discard));
}

#[test]
fn store_sink_writes_rows_in_key_order() {
    let doc = parse(r#"{"b":1,"a":{"z":true,"y":null}}"#);
    let mut sink = Sink::store(Store::new());
    assert_eq!(for_each_primitive(&doc, &mut sink), Ok(()));
    let store = match sink {
        Sink::Store { store } => store,
        _ => unreachable!(),
    };
    assert_eq!(store.len(), 3);
    assert_eq!(store.row(0).key, b"a/y/".to_vec());
    assert_eq!(store.row(0).value, Scalar::Null);
    assert_eq!(store.row(1).key, b"a/z/".to_vec());
    assert_eq!(store.row(1).value, Scalar::Bool(true));
    assert_eq!(store.row(2).key, b"b/".to_vec());
    assert_eq!(store.row(2).value, number(1));
}

#[test]
fn indexing_twice_leaves_the_same_rows() {
    let doc = parse(r#"{"a":0,"b":[1,2,{"c":"foo"}],"d":{"e":null}}"#);
    let mut once = Store::new();
    assert_eq!(index(&doc, &mut once), Ok(()));
    let mut twice = Store::new();
    assert_eq!(index(&doc, &mut twice), Ok(()));
    assert_eq!(index(&doc, &mut twice), Ok(()));
    assert_eq!(once.len(), 5);
    assert_eq!(twice.len(), once.len());
    for i in 0..once.len() {
        assert_eq!(once.row(i), twice.row(i));
    }
}

#[test]
fn values_come_in_the_order_of_the_calls() {
    let doc = Document::Object(vec![
        (b"c".to_vec(), Document::Leaf(number(4))),
        (b"a".to_vec(), Document::Leaf(number(3))),
        (b"b".to_vec(), Document::Leaf(number(1))),
    ]);
    assert_eq!(values_of(&doc), vec![number(4), number(3), number(1)]);
}

#[test]
fn key_with_the_delimiter_is_refused() {
    let doc = Document::Object(vec![(b"a/b".to_vec(), Document::Leaf(number(1)))]);
    let mut sink = Sink::console();
    assert_eq!(
        for_each_primitive(&doc, &mut sink),
        Err(PathError::DelimiterInSegment)
    );
    match sink {
        Sink::Console { lines } => assert!(lines.is_empty()),
        _ => unreachable!(),
    }
    let mut store = Store::new();
    assert_eq!(index(&doc, &mut store), Err(PathError::DelimiterInSegment));
    assert_eq!(store.len(), 0);
}

#[test]
fn empty_key_is_refused() {
    let doc = Document::Object(vec![(Vec::new(), Document::Leaf(number(1)))]);
    let mut store = Store::new();
    assert_eq!(index(&doc, &mut store), Err(PathError::EmptySegment));
    assert_eq!(store.len(), 0);
    let mut sink = Sink::discard();
    assert_eq!(
        for_each_primitive(&doc, &mut sink),
        Err(PathError::EmptySegment)
    );
}

#[test]
fn rows_before_a_refused_key_stay_written() {
    let doc = Document::Object(vec![
        (b"a".to_vec(), Document::Leaf(number(1))),
        (
            b"b".to_vec(),
            Document::Array(vec![
                Document::Leaf(number(2)),
                Document::Object(vec![
                    (b"c".to_vec(), Document::Leaf(number(3))),
                    (b"d/e".to_vec(), Document::Leaf(number(4))),
                    (b"f".to_vec(), Document::Leaf(number(5))),
                ]),
                Document::Leaf(number(6)),
            ]),
        ),
        (b"g".to_vec(), Document::Leaf(number(7))),
    ]);
    let mut sink = Sink::console();
    assert_eq!(
        for_each_primitive(&doc, &mut sink),
        Err(PathError::DelimiterInSegment)
    );
    let lines: Vec<String> = match sink {
        Sink::Console { lines } => lines
            .into_iter()
            .map(|line| String::from_utf8(line).expect("utf8"))
            .collect(),
        _ => unreachable!(),
    };
    assert_eq!(
        lines,
        vec![
            "a/ = 1".to_string(),
            "b/0/ = 2".to_string(),
            "b/1/c/ = 3".to_string(),
        ]
    );
    let mut store = Store::new();
    assert_eq!(index(&doc, &mut store), Err(PathError::DelimiterInSegment));
    assert_eq!(store.len(), 3);
    assert_eq!(store.row(2).key, b"b/1/c/".to_vec());
}

#[test]
fn the_first_refused_key_decides_the_error() {
    let doc = Document::Object(vec![
        (Vec::new(), Document::Leaf(number(1))),
        (b"a/b".to_vec(), Document::Leaf(number(2))),
    ]);
    let mut store = Store::new();
    assert_eq!(index(&doc, &mut store), Err(PathError::EmptySegment));
    let doc = Document::Object(vec![
        (b"/".to_vec(), Document::Leaf(number(2))),
        (Vec::new(), Document::Leaf(number(1))),
    ]);
    assert_eq!(index(&doc, &mut store), Err(PathError::DelimiterInSegment));
    assert_eq!(store.len(), 0);
}
