use hjq::path::split_segments;
use hjq::{absorb_row, index, reconstruct, set_json, Document, Scalar, Store};

fn number(n: u64) -> Scalar {
    Scalar::Number(serde_json::Number::from(n))
}

fn text(s: &str) -> Scalar {
    Scalar::Text(s.to_string())
}

fn leaf(s: Scalar) -> Document {
    Document::Leaf(s)
}

fn object(entries: Vec<(&str, Document)>) -> Document {
    Document::Object(
        entries
            .into_iter()
            .map(|(k, v)| (k.as_bytes().to_vec(), v))
            .collect(),
    )
}

fn path(segments: &[&str]) -> Vec<Vec<u8>> {
    segments.iter().map(|s| s.as_bytes().to_vec()).collect()
}

fn store_of(rows: Vec<(&str, Scalar)>) -> Store {
    let mut store = Store::new();
    for (k, v) in rows {
        store.put(k.as_bytes(), v);
    }
    store
}

#[test]
fn round_trip_of_an_object() {
    let doc = object(vec![
        ("a", leaf(number(0))),
        ("b", leaf(number(1))),
        ("c", leaf(text("foo"))),
    ]);
    let mut store = Store::new();
    index(&doc, &mut store).expect("plain keys");
    assert_eq!(reconstruct(&store, b""), doc);
}

#[test]
fn round_trip_turns_arrays_into_maps_of_indices() {
    let doc = Document::Array(vec![leaf(text("x")), leaf(text("y"))]);
    let mut store = Store::new();
    index(&doc, &mut store).expect("plain keys");
    assert_eq!(
        reconstruct(&store, b""),
        object(vec![("0", leaf(text("x"))), ("1", leaf(text("y")))])
    );
}

#[test]
fn round_trip_of_a_nested_document() {
    let doc = object(vec![(
        "x",
        object(vec![
            ("y", Document::Array(vec![leaf(text("p")), leaf(text("q"))])),
            ("z", leaf(Scalar::Bool(false))),
        ]),
    )]);
    let mut store = Store::new();
    index(&doc, &mut store).expect("plain keys");
    assert_eq!(
        reconstruct(&store, b""),
        object(vec![(
            "x",
            object(vec![
                ("y", object(vec![("0", leaf(text("p"))), ("1", leaf(text("q")))])),
                ("z", leaf(Scalar::Bool(false))),
            ]),
        )])
    );
}

#[test]
fn round_trip_of_a_scalar_root() {
    let doc = leaf(number(7));
    let mut store = Store::new();
    index(&doc, &mut store).expect("plain keys");
    assert_eq!(reconstruct(&store, b""), leaf(number(7)));
}

#[test]
fn reconstruct_takes_the_prefix_off() {
    let store = store_of(vec![
        ("x/y/0/", text("p")),
        ("x/y/1/", text("q")),
        ("x/z/", number(3)),
        ("w/", Scalar::Null),
    ]);
    assert_eq!(
        reconstruct(&store, b"x/"),
        object(vec![
            ("y", object(vec![("0", leaf(text("p"))), ("1", leaf(text("q")))])),
            ("z", leaf(number(3))),
        ])
    );
    assert_eq!(
        reconstruct(&store, b"x/y/"),
        object(vec![("0", leaf(text("p"))), ("1", leaf(text("q")))])
    );
    assert_eq!(reconstruct(&store, b"x/z/"), leaf(number(3)));
}

#[test]
fn reconstruct_without_matching_rows_is_null() {
    let store = store_of(vec![("a/", number(1)), ("b/c/", number(2))]);
    assert_eq!(reconstruct(&store, b"nope/"), leaf(Scalar::Null));
    assert_eq!(reconstruct(&Store::new(), b""), leaf(Scalar::Null));
    assert_eq!(reconstruct(&Store::new(), b"nope/"), leaf(Scalar::Null));
}

#[test]
fn reconstruct_with_an_unterminated_prefix_matches_siblings() {
    let store = store_of(vec![("ab/", number(1)), ("abc/", number(2))]);
    assert_eq!(reconstruct(&store, b"ab/"), leaf(number(1)));
    assert_eq!(
        reconstruct(&store, b"ab"),
        object(vec![("c", leaf(number(2)))])
    );
}

#[test]
fn reconstruct_drops_empty_segments() {
    let store = store_of(vec![("a//b/", number(1)), ("a/c", number(2)), ("/d/", number(3))]);
    assert_eq!(
        reconstruct(&store, b""),
        object(vec![
            ("d", leaf(number(3))),
            ("a", object(vec![("b", leaf(number(1))), ("c", leaf(number(2)))])),
        ])
    );
}

#[test]
fn reconstruct_lets_the_later_key_win() {
    let store = store_of(vec![("a/", number(1)), ("a/b/", number(2))]);
    assert_eq!(
        reconstruct(&store, b""),
        object(vec![("a", object(vec![("b", leaf(number(2)))]))])
    );
}

#[test]
fn set_json_with_an_empty_path_replaces_the_document() {
    let mut json = object(vec![("a", leaf(number(1)))]);
    set_json(&mut json, &path(&[]), leaf(text("v")));
    assert_eq!(json, leaf(text("v")));
}

#[test]
fn set_json_makes_the_maps_on_the_way() {
    let mut json = leaf(Scalar::Null);
    set_json(&mut json, &path(&["a", "b", "c"]), leaf(number(1)));
    assert_eq!(
        json,
        object(vec![("a", object(vec![("b", object(vec![("c", leaf(number(1)))]))]))])
    );
    set_json(&mut json, &path(&["a", "d"]), leaf(number(2)));
    assert_eq!(
        json,
        object(vec![(
            "a",
            object(vec![
                ("b", object(vec![("c", leaf(number(1)))])),
                ("d", leaf(number(2))),
            ])
        )])
    );
}

#[test]
fn set_json_replaces_what_is_not_a_map() {
    let mut json = leaf(number(9));
    set_json(&mut json, &path(&["a"]), leaf(number(1)));
    assert_eq!(json, object(vec![("a", leaf(number(1)))]));

    let mut json = Document::Array(vec![leaf(number(9))]);
    set_json(&mut json, &path(&["0"]), leaf(number(1)));
    assert_eq!(json, object(vec![("0", leaf(number(1)))]));

    let mut json = object(vec![("a", leaf(number(9)))]);
    set_json(&mut json, &path(&["a", "b"]), leaf(number(1)));
    assert_eq!(json, object(vec![("a", object(vec![("b", leaf(number(1)))]))]));
}

#[test]
fn set_json_replaces_the_value_at_the_end_of_the_path() {
    let mut json = object(vec![("a", object(vec![("b", leaf(number(1)))]))]);
    set_json(&mut json, &path(&["a"]), leaf(number(2)));
    assert_eq!(json, object(vec![("a", leaf(number(2)))]));
}

#[test]
fn set_json_updates_the_last_of_two_entries_with_one_key() {
    let mut json = object(vec![
        ("a", leaf(number(1))),
        ("b", leaf(number(2))),
        ("a", leaf(number(3))),
    ]);
    set_json(&mut json, &path(&["a"]), leaf(number(4)));
    assert_eq!(
        json,
        object(vec![
            ("a", leaf(number(1))),
            ("b", leaf(number(2))),
            ("a", leaf(number(4))),
        ])
    );
}

#[test]
fn split_segments_leaves_out_empty_runs() {
    assert_eq!(split_segments(b"x/y/0/", 0), path(&["x", "y", "0"]));
    assert_eq!(split_segments(b"x/y/0/", 2), path(&["y", "0"]));
    assert_eq!(split_segments(b"x/y/0", 2), path(&["y", "0"]));
    assert_eq!(split_segments(b"//a///b//", 0), path(&["a", "b"]));
    assert_eq!(split_segments(b"", 0), path(&[]));
    assert_eq!(split_segments(b"///", 0), path(&[]));
    assert_eq!(split_segments(b"abc", 3), path(&[]));
    assert_eq!(split_segments(b"abc", 7), path(&[]));
}

#[test]
fn absorb_row_takes_rows_under_the_prefix_only() {
    let mut json = leaf(Scalar::Null);
    assert!(absorb_row(&mut json, b"x/", b"x/y/0/", text("p")));
    assert_eq!(
        json,
        object(vec![("y", object(vec![("0", leaf(text("p")))]))])
    );
    assert!(!absorb_row(&mut json, b"x/", b"w/y/1/", text("q")));
    assert!(!absorb_row(&mut json, b"x/", b"x", text("q")));
    assert_eq!(
        json,
        object(vec![("y", object(vec![("0", leaf(text("p")))]))])
    );
    assert!(absorb_row(&mut json, b"x/", b"x/", number(1)));
    assert_eq!(json, leaf(number(1)));
}
