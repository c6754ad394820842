use hjq::{list_children, scan_start, scan_step, ListError, ScanStep, Scalar, Store};

fn names(list: &[&str]) -> Vec<Vec<u8>> {
    list.iter().map(|s| s.as_bytes().to_vec()).collect()
}

fn store_of(keys: &[&str]) -> Store {
    let mut store = Store::new();
    for k in keys {
        store.put(k.as_bytes(), Scalar::Null);
    }
    store
}

// The listing as a caller of a seek-only store would run it; returns the
// children and the number of seeks made.
fn listing_with_seek_count(store: &Store, prefix: &[u8]) -> (Vec<Vec<u8>>, usize) {
    let mut target = scan_start(prefix).expect("prefix");
    let mut found = Vec::new();
    let mut seeks = 0;
    loop {
        let at = store.seek(&target);
        seeks += 1;
        let landed = if at < store.len() {
            Some(store.row(at).key.as_slice())
        } else {
            None
        };
        match scan_step(prefix, landed).expect("step") {
            ScanStep::Done => break,
            ScanStep::Child { name, next_target } => {
                found.push(name);
                target = next_target;
            }
        }
    }
    (found, seeks)
}

#[test]
fn child_listing_skips_descendants() {
    let mut store = Store::new();
    for i in 0..1000 {
        let key = format!("x/y/{}/", i);
        store.put(key.as_bytes(), Scalar::Null);
    }
    store.put(b"x/z/", Scalar::Null);
    store.put(b"w/", Scalar::Null);
    assert_eq!(store.len(), 1002);
    assert_eq!(list_children(&store, b"x/"), Ok(names(&["y", "z"])));
    let (found, seeks) = listing_with_seek_count(&store, b"x/");
    assert_eq!(found, names(&["y", "z"]));
    assert_eq!(seeks, 3);
}

#[test]
fn child_listing_of_the_root() {
    let store = store_of(&["a/", "b/c/", "b/d/", "c/0/", "c/1/"]);
    assert_eq!(list_children(&store, b""), Ok(names(&["a", "b", "c"])));
    assert_eq!(list_children(&store, b"b/"), Ok(names(&["c", "d"])));
    assert_eq!(list_children(&store, b"c/"), Ok(names(&["0", "1"])));
}

#[test]
fn child_listing_without_children() {
    let store = store_of(&["a/", "b/c/"]);
    assert_eq!(list_children(&store, b"nope/"), Ok(names(&[])));
    assert_eq!(list_children(&Store::new(), b""), Ok(names(&[])));
    assert_eq!(list_children(&store, b"b/c/"), Ok(names(&[])));
}

#[test]
fn child_listing_stops_at_a_key_that_is_the_prefix() {
    let store = store_of(&["x/", "x/y/"]);
    assert_eq!(list_children(&store, b"x/"), Ok(names(&[])));
}

#[test]
fn child_listing_refuses_an_unterminated_prefix() {
    let store = store_of(&["abc/0/"]);
    assert_eq!(
        list_children(&store, b"ab"),
        Err(ListError::UnterminatedPrefix)
    );
    assert_eq!(
        list_children(&store, b"abc"),
        Err(ListError::UnterminatedPrefix)
    );
    assert_eq!(list_children(&store, b"abc/"), Ok(names(&["0"])));
    assert_eq!(scan_start(b"ab"), Err(ListError::UnterminatedPrefix));
    assert_eq!(scan_start(b"ab/"), Ok(b"ab/".to_vec()));
    assert_eq!(scan_start(b""), Ok(Vec::new()));
}

#[test]
fn child_listing_fails_on_an_empty_segment() {
    let store = store_of(&["x//y/"]);
    assert_eq!(list_children(&store, b"x/"), Err(ListError::EmptySegment));
    let store = store_of(&["/a/"]);
    assert_eq!(list_children(&store, b""), Err(ListError::EmptySegment));
    let store = store_of(&["x/a/", "x//b/"]);
    assert_eq!(list_children(&store, b"x/"), Err(ListError::EmptySegment));
}

#[test]
fn child_listing_goes_by_the_order_of_the_keys() {
    let store = store_of(&["x/a/", "x/a-b/", "x/a0/"]);
    assert_eq!(
        list_children(&store, b"x/"),
        Ok(names(&["a-b", "a", "a0"]))
    );
}

#[test]
fn child_listing_takes_a_key_without_delimiter_to_its_end() {
    let store = store_of(&["x/abc"]);
    assert_eq!(list_children(&store, b"x/"), Ok(names(&["abc"])));
}

#[test]
fn scan_step_decides_after_each_seek() {
    assert_eq!(scan_step(b"x/", None), Ok(ScanStep::Done));
    assert_eq!(scan_step(b"x/", Some(b"y/a/")), Ok(ScanStep::Done));
    assert_eq!(scan_step(b"x/", Some(b"x/")), Ok(ScanStep::Done));
    assert_eq!(scan_step(b"x/", Some(b"x")), Ok(ScanStep::Done));
    assert_eq!(
        scan_step(b"x/", Some(b"x/y/0/")),
        Ok(ScanStep::Child {
            name: b"y".to_vec(),
            next_target: b"x/y0".to_vec(),
        })
    );
    assert_eq!(
        scan_step(b"", Some(b"abc/")),
        Ok(ScanStep::Child {
            name: b"abc".to_vec(),
            next_target: b"abc0".to_vec(),
        })
    );
    assert_eq!(
        scan_step(b"x/", Some(b"x//y/")),
        Err(ListError::EmptySegment)
    );
}

#[test]
fn child_listing_after_flattening_a_document() {
    let doc = hjq::Document::Object(vec![
        (
            b"x".to_vec(),
            hjq::Document::Object(vec![
                (
                    b"y".to_vec(),
                    hjq::Document::Array(vec![
                        hjq::Document::Leaf(Scalar::Bool(true)),
                        hjq::Document::Leaf(Scalar::Bool(false)),
                    ]),
                ),
                (b"z".to_vec(), hjq::Document::Leaf(Scalar::Null)),
            ]),
        ),
        (b"w".to_vec(), hjq::Document::Leaf(Scalar::Null)),
    ]);
    let mut store = Store::new();
    hjq::index(&doc, &mut store).expect("plain keys");
    assert_eq!(list_children(&store, b""), Ok(names(&["w", "x"])));
    assert_eq!(list_children(&store, b"x/"), Ok(names(&["y", "z"])));
    assert_eq!(list_children(&store, b"x/y/"), Ok(names(&["0", "1"])));
    assert_eq!(list_children(&store, b"x/y/0/"), Ok(names(&[])));
}
