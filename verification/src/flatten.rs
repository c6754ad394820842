//! The traversal that turns a document into rows: one per leaf, keyed by the
//! path to it, in document order. A key of an object that could not be read
//! back from a path ends the traversal.

use crate::path::{
    decimal, plain_segment, segment_error, PathBuffer, PathError, DELIMITER,
};
use crate::sink::{accepted_all, lemma_accepted_all_concat, Sink, SinkView};
use crate::store::{put_all, Entry, Store};
use crate::value::Document;
use vstd::prelude::*;

verus! {

/// Every key of every object in the document is a plain segment: not empty,
/// and free of the delimiter.
pub open spec fn plain_keys(d: Document) -> bool
    decreases d,
{
    match d {
        Document::Leaf(_) => true,
        Document::Array(items) => plain_keys_items(items@),
        Document::Object(entries) => plain_keys_entries(entries@),
    }
}

/// Every element has plain keys.
pub open spec fn plain_keys_items(items: Seq<Document>) -> bool
    decreases items,
{
    items.len() == 0 || (plain_keys_items(items.drop_last()) && plain_keys(items.last()))
}

/// Every key is plain, and every child has plain keys.
pub open spec fn plain_keys_entries(entries: Seq<(Vec<u8>, Document)>) -> bool
    decreases entries,
{
    entries.len() == 0 || (plain_keys_entries(entries.drop_last()) && plain_segment(
        entries.last().0@,
    ) && plain_keys(entries.last().1))
}

/// The rows of the document `d`, whose keys are plain, when it stands at
/// the key `at`: a scalar gives one row at that key; a container gives the
/// rows of its children, each child standing at `at`, its name and the
/// delimiter. The children of an array are named by their decimal
/// positions, counted from zero. An empty container gives no row.
pub open spec fn flat_rows(d: Document, at: Seq<u8>) -> Seq<Entry>
    decreases d,
{
    match d {
        Document::Leaf(value) => seq![Entry { key: at, value }],
        Document::Array(items) => flat_items(items@, at),
        Document::Object(entries) => flat_entries(entries@, at),
    }
}

/// The rows of the elements of an array that stands at `at`.
pub open spec fn flat_items(items: Seq<Document>, at: Seq<u8>) -> Seq<Entry>
    decreases items,
{
    if items.len() == 0 {
        Seq::empty()
    } else {
        flat_items(items.drop_last(), at) + flat_rows(
            items.last(),
            at + decimal((items.len() - 1) as nat) + seq![DELIMITER],
        )
    }
}

/// The rows of the entries of an object with plain keys that stands at
/// `at`.
pub open spec fn flat_entries(entries: Seq<(Vec<u8>, Document)>, at: Seq<u8>) -> Seq<Entry>
    decreases entries,
{
    if entries.len() == 0 {
        Seq::empty()
    } else {
        flat_entries(entries.drop_last(), at) + flat_rows(
            entries.last().1,
            at + entries.last().0@ + seq![DELIMITER],
        )
    }
}

/// How far a traversal gets: the rows that it hands over, and the error
/// that ends it, if one does.
pub ghost struct Flattened {
    pub rows: Seq<Entry>,
    pub error: Option<PathError>,
}

/// What a traversal returns when it ends with `error`.
pub open spec fn outcome(error: Option<PathError>) -> Result<(), PathError> {
    match error {
        None => Ok(()),
        Some(e) => Err(e),
    }
}

/// The traversal of the document `d` that stands at the key `at`: the rows
/// of its leaves in document order, up to the first key of an object that
/// is not a plain segment. At such a key the traversal ends with the error
/// of that key; the rows before it have been handed over, and neither that
/// entry nor anything after it gives a row.
pub open spec fn flattened(d: Document, at: Seq<u8>) -> Flattened
    decreases d,
{
    match d {
        Document::Leaf(value) => Flattened { rows: seq![Entry { key: at, value }], error: None },
        Document::Array(items) => flattened_items(items@, at),
        Document::Object(entries) => flattened_entries(entries@, at),
    }
}

/// The traversal of the elements of an array that stands at `at`.
pub open spec fn flattened_items(items: Seq<Document>, at: Seq<u8>) -> Flattened
    decreases items,
{
    if items.len() == 0 {
        Flattened { rows: Seq::empty(), error: None }
    } else {
        let before = flattened_items(items.drop_last(), at);
        if before.error is Some {
            before
        } else {
            let child = flattened(
                items.last(),
                at + decimal((items.len() - 1) as nat) + seq![DELIMITER],
            );
            Flattened { rows: before.rows + child.rows, error: child.error }
        }
    }
}

/// The traversal of the entries of an object that stands at `at`.
pub open spec fn flattened_entries(entries: Seq<(Vec<u8>, Document)>, at: Seq<u8>) -> Flattened
    decreases entries,
{
    if entries.len() == 0 {
        Flattened { rows: Seq::empty(), error: None }
    } else {
        let before = flattened_entries(entries.drop_last(), at);
        if before.error is Some {
            before
        } else if segment_error(entries.last().0@) is Some {
            Flattened { rows: before.rows, error: segment_error(entries.last().0@) }
        } else {
            let child = flattened(entries.last().1, at + entries.last().0@ + seq![DELIMITER]);
            Flattened { rows: before.rows + child.rows, error: child.error }
        }
    }
}

/// A traversal ends without error exactly if the keys of the document are
/// plain, and then it hands over the rows of the document.
pub proof fn lemma_flattened_plain(d: Document, at: Seq<u8>)
    ensures
        flattened(d, at).error is None <==> plain_keys(d),
        plain_keys(d) ==> flattened(d, at).rows == flat_rows(d, at),
    decreases d,
{
    match d {
        Document::Leaf(_) => {},
        Document::Array(items) => {
            lemma_flattened_items_plain(items@, at);
        },
        Document::Object(entries) => {
            lemma_flattened_entries_plain(entries@, at);
        },
    }
}

/// The same of the elements of an array.
pub proof fn lemma_flattened_items_plain(items: Seq<Document>, at: Seq<u8>)
    ensures
        flattened_items(items, at).error is None <==> plain_keys_items(items),
        plain_keys_items(items) ==> flattened_items(items, at).rows == flat_items(items, at),
    decreases items,
{
    if items.len() > 0 {
        lemma_flattened_items_plain(items.drop_last(), at);
        lemma_flattened_plain(
            items.last(),
            at + decimal((items.len() - 1) as nat) + seq![DELIMITER],
        );
    }
}

/// The same of the entries of an object.
pub proof fn lemma_flattened_entries_plain(entries: Seq<(Vec<u8>, Document)>, at: Seq<u8>)
    ensures
        flattened_entries(entries, at).error is None <==> plain_keys_entries(entries),
        plain_keys_entries(entries) ==> flattened_entries(entries, at).rows == flat_entries(
            entries,
            at,
        ),
    decreases entries,
{
    if entries.len() > 0 {
        lemma_flattened_entries_plain(entries.drop_last(), at);
        lemma_flattened_plain(entries.last().1, at + entries.last().0@ + seq![DELIMITER]);
    }
}

/// Once the traversal of the first elements of an array has ended with an
/// error, the elements after them change nothing.
pub proof fn lemma_flattened_items_ended(items: Seq<Document>, at: Seq<u8>, n: int)
    requires
        0 <= n <= items.len(),
        flattened_items(items.take(n), at).error is Some,
    ensures
        flattened_items(items, at) == flattened_items(items.take(n), at),
    decreases items.len(),
{
    if n == items.len() {
        assert(items.take(n) =~= items);
    } else {
        assert(items.drop_last().take(n) =~= items.take(n));
        lemma_flattened_items_ended(items.drop_last(), at, n);
    }
}

/// Once the traversal of the first entries of an object has ended with an
/// error, the entries after them change nothing.
pub proof fn lemma_flattened_entries_ended(
    entries: Seq<(Vec<u8>, Document)>,
    at: Seq<u8>,
    n: int,
)
    requires
        0 <= n <= entries.len(),
        flattened_entries(entries.take(n), at).error is Some,
    ensures
        flattened_entries(entries, at) == flattened_entries(entries.take(n), at),
    decreases entries.len(),
{
    if n == entries.len() {
        assert(entries.take(n) =~= entries);
    } else {
        assert(entries.drop_last().take(n) =~= entries.take(n));
        lemma_flattened_entries_ended(entries.drop_last(), at, n);
    }
}

/// Into a store sink, taking in rows is writing them one after the other.
pub proof fn lemma_accepted_all_store(entries: Seq<Entry>, rows: Seq<Entry>)
    ensures
        accepted_all(SinkView::Store { entries }, rows) == (SinkView::Store {
            entries: put_all(entries, rows),
        }),
    decreases rows.len(),
{
    if rows.len() > 0 {
        lemma_accepted_all_store(entries, rows.drop_last());
    }
}

/// Walks `doc`, which stands at the path in `path`, and hands every leaf to
/// `sink`. The buffer grows on the way down and is cut back on the way up.
/// A key that is not a plain segment ends the walk where it stands.
fn walk(doc: &Document, path: &mut PathBuffer, sink: &mut Sink) -> (r: Result<(), PathError>)
    ensures
        final(sink)@ == accepted_all(old(sink)@, flattened(*doc, old(path)@).rows),
        r == outcome(flattened(*doc, old(path)@).error),
        r is Ok ==> final(path)@ == old(path)@,
    decreases doc,
{
    let ghost at = path@;
    let ghost start = sink@;
    match doc {
        Document::Leaf(value) => {
            let ghost rows = flattened(*doc, at).rows;
            assert(rows.drop_last() =~= Seq::<Entry>::empty());
            assert(accepted_all(start, Seq::<Entry>::empty()) == start);
            assert(rows.last() == (Entry { key: at, value: *value }));
            sink.accept(path.as_slice(), value);
            Ok(())
        },
        Document::Array(items) => {
            let mut i: usize = 0;
            assert(items@.take(0) =~= Seq::<Document>::empty());
            assert(accepted_all(start, Seq::<Entry>::empty()) == start);
            while i < items.len()
                invariant
                    i <= items.len(),
                    path@ == at,
                    at == old(path)@,
                    start == old(sink)@,
                    flattened_items(items@.take(i as int), at).error is None,
                    sink@ == accepted_all(start, flattened_items(items@.take(i as int), at).rows),
                    *doc is Array && doc->Array_0 == *items,
                decreases items.len() - i,
            {
                let ghost done = flattened_items(items@.take(i as int), at);
                let ghost child_at = at + decimal(i as nat) + seq![DELIMITER];
                let ghost child = flattened(items@[i as int], child_at);
                proof {
                    assert(items@.take(i as int + 1).drop_last() =~= items@.take(i as int));
                    assert(flattened_items(items@.take(i as int + 1), at) == (Flattened {
                        rows: done.rows + child.rows,
                        error: child.error,
                    }));
                    lemma_accepted_all_concat(start, done.rows, child.rows);
                }
                let mark = path.push_index(i as u64);
                match walk(&items[i], path, sink) {
                    Ok(()) => {},
                    Err(e) => {
                        proof {
                            lemma_flattened_items_ended(items@, at, i as int + 1);
                        }
                        return Err(e);
                    },
                }
                path.truncate(mark);
                assert(path@ =~= at);
                i += 1;
            }
            assert(items@.take(items@.len() as int) =~= items@);
            Ok(())
        },
        Document::Object(entries) => {
            let mut i: usize = 0;
            assert(entries@.take(0) =~= Seq::<(Vec<u8>, Document)>::empty());
            assert(accepted_all(start, Seq::<Entry>::empty()) == start);
            while i < entries.len()
                invariant
                    i <= entries.len(),
                    path@ == at,
                    at == old(path)@,
                    start == old(sink)@,
                    flattened_entries(entries@.take(i as int), at).error is None,
                    sink@ == accepted_all(
                        start,
                        flattened_entries(entries@.take(i as int), at).rows,
                    ),
                    *doc is Object && doc->Object_0 == *entries,
                decreases entries.len() - i,
            {
                let ghost done = flattened_entries(entries@.take(i as int), at);
                let ghost name = entries@[i as int].0@;
                let ghost child_at = at + name + seq![DELIMITER];
                let ghost child = flattened(entries@[i as int].1, child_at);
                proof {
                    assert(entries@.take(i as int + 1).drop_last() =~= entries@.take(i as int));
                    assert(entries@.take(i as int + 1).last() == entries@[i as int]);
                }
                let mark = match path.push_segment(entries[i].0.as_slice()) {
                    Ok(mark) => mark,
                    Err(e) => {
                        proof {
                            assert(flattened_entries(entries@.take(i as int + 1), at) == (
                            Flattened { rows: done.rows, error: Some(e) }));
                            lemma_flattened_entries_ended(entries@, at, i as int + 1);
                        }
                        return Err(e);
                    },
                };
                proof {
                    assert(flattened_entries(entries@.take(i as int + 1), at) == (Flattened {
                        rows: done.rows + child.rows,
                        error: child.error,
                    }));
                    lemma_accepted_all_concat(start, done.rows, child.rows);
                }
                match walk(&entries[i].1, path, sink) {
                    Ok(()) => {},
                    Err(e) => {
                        proof {
                            lemma_flattened_entries_ended(entries@, at, i as int + 1);
                        }
                        return Err(e);
                    },
                }
                path.truncate(mark);
                assert(path@ =~= at);
                i += 1;
            }
            assert(entries@.take(entries@.len() as int) =~= entries@);
            Ok(())
        },
    }
}

/// Flattens `doc` into `sink`: every leaf is handed over once, with the key
/// of its path, in document order. A document that is a single scalar has
/// the empty key; an empty container hands over nothing.
///
/// A key of an object that is empty or holds the delimiter is refused: the
/// traversal ends there with the error of that key. The leaves before it
/// have been handed over and stay so; nothing is handed over for that entry
/// or after it. The traversal succeeds exactly if every key is plain.
pub fn for_each_primitive(doc: &Document, sink: &mut Sink) -> (r: Result<(), PathError>)
    ensures
        final(sink)@ == accepted_all(old(sink)@, flattened(*doc, Seq::empty()).rows),
        r == outcome(flattened(*doc, Seq::empty()).error),
        r is Ok <==> plain_keys(*doc),
        plain_keys(*doc) ==> final(sink)@ == accepted_all(
            old(sink)@,
            flat_rows(*doc, Seq::empty()),
        ),
{
    proof {
        lemma_flattened_plain(*doc, Seq::empty());
    }
    let mut path = PathBuffer::new();
    walk(doc, &mut path, sink)
}

/// Flattens `doc` into `store`: the rows of the document are written one
/// after the other, a later row replacing an earlier one of the same key.
///
/// A key of an object that is empty or holds the delimiter ends the run
/// with the error of that key. The rows before it are written and stay so.
pub fn index(doc: &Document, store: &mut Store) -> (r: Result<(), PathError>)
    ensures
        final(store)@ == put_all(old(store)@, flattened(*doc, Seq::empty()).rows),
        r == outcome(flattened(*doc, Seq::empty()).error),
        r is Ok <==> plain_keys(*doc),
        plain_keys(*doc) ==> final(store)@ == put_all(
            old(store)@,
            flat_rows(*doc, Seq::empty()),
        ),
{
    let mut taken = Store::new();
    core::mem::swap(store, &mut taken);
    let ghost before = taken@;
    let mut sink = Sink::Store { store: taken };
    let outcome = for_each_primitive(doc, &mut sink);
    proof {
        lemma_accepted_all_store(before, flattened(*doc, Seq::empty()).rows);
        lemma_flattened_plain(*doc, Seq::empty());
    }
    match sink {
        Sink::Store { store: filled } => {
            let mut filled = filled;
            core::mem::swap(store, &mut filled);
        },
        _ => {},
    }
    outcome
}

} // verus!
