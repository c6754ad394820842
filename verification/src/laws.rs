//! What holds of the library as a whole: laws that relate flattening, the
//! store and the two read paths.

use crate::children::{below, bookend, children, lemma_bookend_beyond, scan_children};
use crate::flatten::{
    flat_rows, flattened, flattened_entries, flattened_items, lemma_flattened_plain, plain_keys,
};
use crate::path::{
    decimal, encode_path, first_segment, key_le, key_lt, lemma_decimal_digits,
    lemma_key_le_lt_transitive, lemma_key_lt_asymmetric, lemma_key_lt_irreflexive,
    lemma_key_lt_le_transitive, lemma_key_lt_transitive, lemma_mismatch, lemma_mismatch_is,
    lemma_prefix_range_ends, lemma_prefix_sorts_first, lemma_run_end_bounds, lemma_run_end_is,
    mismatch, plain_segment, run_end, segment_error, segments_from, DELIMITER,
};
use crate::roundtrip::{
    faithful, lemma_faithful_plain_keys, lemma_flat_rows_spread, lemma_rebuild_flat_rows,
    lemma_rebuild_is_onto_null, lemma_store_order_is_immaterial,
};
use crate::store::{
    ascending, lemma_put_all_ascending, lemma_store_map_decides, lemma_store_map_put, put_all,
    store_map, Entry,
};
use crate::subtree::rebuild;
use crate::value::{normal_form, Document, Scalar};
use vstd::prelude::*;

verus! {

/// A map after the rows are written into it one after the other.
pub open spec fn written(map: Map<Seq<u8>, Scalar>, rows: Seq<Entry>) -> Map<Seq<u8>, Scalar>
    decreases rows.len(),
{
    if rows.len() == 0 {
        map
    } else {
        written(map, rows.drop_last()).insert(rows.last().key, rows.last().value)
    }
}

/// The map of a store after rows are put into it is the map of the store
/// with the rows written into it.
pub proof fn lemma_put_all_written(entries: Seq<Entry>, rows: Seq<Entry>)
    requires
        ascending(entries),
    ensures
        store_map(put_all(entries, rows)) == written(store_map(entries), rows),
    decreases rows.len(),
{
    if rows.len() > 0 {
        lemma_put_all_written(entries, rows.drop_last());
        lemma_put_all_ascending(entries, rows.drop_last());
        lemma_store_map_put(put_all(entries, rows.drop_last()), rows.last().key, rows.last().value);
    }
}

/// A write that is made again after the rows counts only the second time.
pub proof fn lemma_written_absorbs(
    map: Map<Seq<u8>, Scalar>,
    key: Seq<u8>,
    value: Scalar,
    rows: Seq<Entry>,
)
    ensures
        written(map.insert(key, value), rows).insert(key, value) == written(map, rows).insert(
            key,
            value,
        ),
    decreases rows.len(),
{
    if rows.len() > 0 {
        lemma_written_absorbs(map, key, value, rows.drop_last());
        let with = written(map.insert(key, value), rows.drop_last());
        let without = written(map, rows.drop_last());
        let last = rows.last();
        assert(with.insert(last.key, last.value).insert(key, value) =~= with.insert(
            key,
            value,
        ).insert(last.key, last.value).insert(key, value));
        assert(without.insert(last.key, last.value).insert(key, value) =~= without.insert(
            key,
            value,
        ).insert(last.key, last.value).insert(key, value));
    }
}

/// Writing the same rows a second time changes nothing.
pub proof fn lemma_written_twice(map: Map<Seq<u8>, Scalar>, rows: Seq<Entry>)
    ensures
        written(written(map, rows), rows) == written(map, rows),
    decreases rows.len(),
{
    if rows.len() > 0 {
        let shorter = rows.drop_last();
        let last = rows.last();
        lemma_written_twice(map, shorter);
        lemma_written_absorbs(written(map, shorter), last.key, last.value, shorter);
        assert(written(map, rows).insert(last.key, last.value) =~= written(map, rows));
    }
}

/// Putting the same rows into a store twice leaves the store that putting
/// them once leaves.
pub proof fn law_put_all_idempotent(entries: Seq<Entry>, rows: Seq<Entry>)
    requires
        ascending(entries),
    ensures
        put_all(put_all(entries, rows), rows) == put_all(entries, rows),
{
    let once = put_all(entries, rows);
    let twice = put_all(once, rows);
    lemma_put_all_ascending(entries, rows);
    lemma_put_all_ascending(once, rows);
    lemma_put_all_written(entries, rows);
    lemma_put_all_written(once, rows);
    lemma_written_twice(store_map(entries), rows);
    lemma_store_map_decides(twice, once);
}

/// Flattening a document into a store that already holds what flattening
/// it writes changes nothing: indexing twice leaves the rows that indexing
/// once leaves. This holds of every document, also of one whose flattening
/// ends early at a key that is refused, since both runs end at the same
/// key.
pub proof fn law_index_idempotent(entries: Seq<Entry>, doc: Document)
    requires
        ascending(entries),
    ensures
        put_all(
            put_all(entries, flattened(doc, Seq::empty()).rows),
            flattened(doc, Seq::empty()).rows,
        ) == put_all(entries, flattened(doc, Seq::empty()).rows),
        plain_keys(doc) ==> put_all(
            put_all(entries, flat_rows(doc, Seq::empty())),
            flat_rows(doc, Seq::empty()),
        ) == put_all(entries, flat_rows(doc, Seq::empty())),
{
    law_put_all_idempotent(entries, flattened(doc, Seq::empty()).rows);
    law_put_all_idempotent(entries, flat_rows(doc, Seq::empty()));
}

/// A key below the prefix whose first segment is not empty and ends at a
/// delimiter.
pub open spec fn proper_child(prefix: Seq<u8>, key: Seq<u8>) -> bool {
    prefix.len() < run_end(key, prefix.len() as int) < key.len()
}

/// Every key below the prefix names a child properly, and no key is the
/// prefix itself.
pub open spec fn proper_children(entries: Seq<Entry>, prefix: Seq<u8>) -> bool {
    forall|i: int|
        0 <= i < entries.len() ==> (#[trigger] entries[i]).key != prefix && (below(
            prefix,
            entries[i].key,
        ) ==> proper_child(prefix, entries[i].key))
}

/// The keys from a child's first key up to its bookend belong to that child.
pub proof fn lemma_within_bookend(prefix: Seq<u8>, first: Seq<u8>, key: Seq<u8>)
    requires
        below(prefix, first),
        proper_child(prefix, first),
        key_le(first, key),
        key_lt(key, bookend(prefix, first_segment(first, prefix.len() as int))),
    ensures
        below(prefix, key),
        first_segment(key, prefix.len() as int) == first_segment(first, prefix.len() as int),
{
    let start = prefix.len() as int;
    let end = run_end(first, start);
    lemma_run_end_bounds(first, start);
    let segment = first_segment(first, start);
    let beyond = bookend(prefix, segment);
    assert(beyond.len() == end + 1);
    assert forall|j: int| 0 <= j < end implies first[j] == beyond[j] by {
        if j < start {
            assert(first.subrange(0, start)[j] == prefix[j]);
        }
    }
    lemma_mismatch(key, beyond, 0);
    let d = mismatch(key, beyond, 0);
    // The key cannot part from the child's own key before the delimiter:
    // it would sort before it.
    if d < end {
        assert forall|j: int| 0 <= j < d implies key[j] == first[j] by {}
        lemma_mismatch_is(key, first, 0, d);
        assert(key_lt(key, first));
    }
    assert(d == end);
    assert(key.len() > end) by {
        if key.len() <= end {
            assert forall|j: int| 0 <= j < end implies key[j] == first[j] by {}
            lemma_mismatch_is(key, first, 0, end);
            assert(key_lt(key, first));
        }
    }
    assert(key[end] == DELIMITER) by {
        if key[end] < DELIMITER {
            assert forall|j: int| 0 <= j < end implies key[j] == first[j] by {}
            lemma_mismatch_is(key, first, 0, end);
            assert(key_lt(key, first));
        }
    }
    assert(key.subrange(0, start) =~= prefix);
    lemma_run_end_is(key, start, end);
    assert(first_segment(key, start) =~= segment);
}

/// Some key at or after position `from` lies below the prefix and has
/// `name` as its first segment.
pub open spec fn names_a_key(
    entries: Seq<Entry>,
    prefix: Seq<u8>,
    from: int,
    name: Seq<u8>,
) -> bool {
    exists|i: int|
        from <= i < entries.len() && below(prefix, (#[trigger] entries[i]).key) && first_segment(
            entries[i].key,
            prefix.len() as int,
        ) == name
}

/// `names` lists the children of the prefix that have a key at or after
/// position `from` and at or beyond `target`: every name is the first
/// segment of a key below the prefix, the first segment of every such key
/// is a name, and the bookends of the names ascend from `target` on.
pub open spec fn lists_children(
    entries: Seq<Entry>,
    prefix: Seq<u8>,
    from: int,
    target: Seq<u8>,
    names: Seq<Seq<u8>>,
) -> bool {
    &&& forall|n: int|
        0 <= n < names.len() ==> key_lt(target, bookend(prefix, #[trigger] names[n]))
    &&& forall|n: int|
        0 <= n < names.len() ==> names_a_key(entries, prefix, from, #[trigger] names[n])
    &&& forall|i: int|
        from <= i < entries.len() && below(prefix, (#[trigger] entries[i]).key) && key_le(
            target,
            entries[i].key,
        ) ==> names.contains(first_segment(entries[i].key, prefix.len() as int))
    &&& forall|m: int, n: int|
        0 <= m < n < names.len() ==> key_lt(
            bookend(prefix, #[trigger] names[m]),
            bookend(prefix, #[trigger] names[n]),
        )
}

/// What the scan lists from a position on, in a store whose keys below the
/// prefix name their children properly.
pub proof fn lemma_scan_lists(entries: Seq<Entry>, prefix: Seq<u8>, from: int, target: Seq<u8>)
    requires
        ascending(entries),
        proper_children(entries, prefix),
        0 <= from <= entries.len(),
        key_le(prefix, target),
    ensures
        scan_children(entries, prefix, from, target) is Some,
        lists_children(
            entries,
            prefix,
            from,
            target,
            scan_children(entries, prefix, from, target)->0,
        ),
    decreases entries.len() - from,
{
    let start = prefix.len() as int;
    if from >= entries.len() {
    } else if key_lt(entries[from].key, target) {
        lemma_scan_lists(entries, prefix, from + 1, target);
        let names = scan_children(entries, prefix, from + 1, target)->0;
        assert forall|n: int| 0 <= n < names.len() implies names_a_key(
            entries,
            prefix,
            from,
            #[trigger] names[n],
        ) by {
            assert(names_a_key(entries, prefix, from + 1, names[n]));
            let i = choose|i: int|
                from + 1 <= i < entries.len() && below(prefix, (#[trigger] entries[i]).key)
                    && first_segment(entries[i].key, start) == names[n];
            assert(from <= i < entries.len() && below(prefix, entries[i].key));
        }
    } else if !below(prefix, entries[from].key) {
        let key = entries[from].key;
        assert(!prefix.is_prefix_of(key)) by {
            if prefix.is_prefix_of(key) {
                assert(key.len() == prefix.len());
                assert(key =~= prefix);
            }
        }
        assert(key_le(prefix, key)) by {
            if key_lt(key, prefix) {
                lemma_key_lt_le_transitive(key, prefix, target);
            }
        }
        assert forall|i: int|
            from <= i < entries.len() && below(
                prefix,
                (#[trigger] entries[i]).key,
            ) implies false by {
            lemma_prefix_range_ends(prefix, entries[i].key, key);
            if i > from {
                lemma_key_lt_asymmetric(entries[from].key, entries[i].key);
            }
        }
    } else {
        let key = entries[from].key;
        let segment = first_segment(key, start);
        lemma_run_end_bounds(key, start);
        let beyond = bookend(prefix, segment);
        assert(prefix.is_prefix_of(beyond)) by {
            assert(beyond.subrange(0, start) =~= prefix);
        }
        lemma_prefix_sorts_first(prefix, beyond);
        lemma_bookend_beyond(prefix, key);
        lemma_scan_lists(entries, prefix, from + 1, beyond);
        let rest = scan_children(entries, prefix, from + 1, beyond)->0;
        let names = seq![segment] + rest;
        assert(scan_children(entries, prefix, from, target) == Some(names));
        assert(key_lt(target, beyond)) by {
            lemma_key_le_lt_transitive(target, key, beyond);
        }
        assert forall|n: int| 0 <= n < names.len() implies key_lt(
            target,
            bookend(prefix, #[trigger] names[n]),
        ) by {
            if n > 0 {
                assert(names[n] == rest[n - 1]);
                lemma_key_lt_transitive(target, beyond, bookend(prefix, rest[n - 1]));
            }
        }
        assert forall|n: int| 0 <= n < names.len() implies names_a_key(
            entries,
            prefix,
            from,
            #[trigger] names[n],
        ) by {
            if n == 0 {
                assert(below(prefix, entries[from].key));
            } else {
                assert(names[n] == rest[n - 1]);
                assert(names_a_key(entries, prefix, from + 1, rest[n - 1]));
                let i = choose|i: int|
                    from + 1 <= i < entries.len() && below(prefix, (#[trigger] entries[i]).key)
                        && first_segment(entries[i].key, start) == rest[n - 1];
                assert(from <= i < entries.len() && below(prefix, entries[i].key));
            }
        }
        assert forall|i: int|
            from <= i < entries.len() && below(prefix, (#[trigger] entries[i]).key) && key_le(
                target,
                entries[i].key,
            ) implies names.contains(first_segment(entries[i].key, start)) by {
            if i == from {
                assert(names[0] == segment);
            } else if key_lt(entries[i].key, beyond) {
                lemma_key_lt_asymmetric(entries[from].key, entries[i].key);
                lemma_within_bookend(prefix, key, entries[i].key);
                assert(names[0] == segment);
            } else {
                let found = first_segment(entries[i].key, start);
                assert(rest.contains(found));
                let n = choose|n: int| 0 <= n < rest.len() && rest[n] == found;
                assert(names[n + 1] == found);
            }
        }
        assert forall|m: int, n: int| 0 <= m < n < names.len() implies key_lt(
            bookend(prefix, #[trigger] names[m]),
            bookend(prefix, #[trigger] names[n]),
        ) by {
            assert(names[n] == rest[n - 1]);
            if m > 0 {
                assert(names[m] == rest[m - 1]);
            }
        }
    }
}

/// Child listing is right wherever the keys below the prefix name their
/// children properly: the list holds the first segment of every key below
/// the prefix and nothing else, each child once, and in the order in which
/// the children's keys stand in the store, however many rows lie below each.
pub proof fn law_children_listed(entries: Seq<Entry>, prefix: Seq<u8>)
    requires
        ascending(entries),
        proper_children(entries, prefix),
    ensures
        children(entries, prefix) is Some,
        forall|n: int|
            0 <= n < children(entries, prefix)->0.len() ==> names_a_key(
                entries,
                prefix,
                0,
                #[trigger] children(entries, prefix)->0[n],
            ),
        forall|i: int|
            0 <= i < entries.len() && below(prefix, (#[trigger] entries[i]).key) ==> children(
                entries,
                prefix,
            )->0.contains(first_segment(entries[i].key, prefix.len() as int)),
        forall|m: int, n: int|
            0 <= m < n < children(entries, prefix)->0.len() ==> key_lt(
                bookend(prefix, #[trigger] children(entries, prefix)->0[m]),
                bookend(prefix, #[trigger] children(entries, prefix)->0[n]),
            ),
{
    lemma_mismatch_is(prefix, prefix, 0, prefix.len() as int);
    lemma_scan_lists(entries, prefix, 0, prefix);
    assert forall|i: int|
        0 <= i < entries.len() && below(prefix, (#[trigger] entries[i]).key) implies key_le(
        prefix,
        entries[i].key,
    ) by {
        lemma_prefix_sorts_first(prefix, entries[i].key);
    }
}

/// Round trip: the rows of a document, written into an empty store and
/// rebuilt from the empty prefix, give the document back in its normal
/// form, in which an array is the map from the decimal positions of its
/// elements to the elements. This holds of every document without empty
/// containers whose objects have plain and distinct keys; flattening such
/// a document meets no key that it refuses.
///
/// This is a law of rows that hold the scalars themselves, as `Store`
/// keeps them. Nothing is claimed here of a store of bytes: that `decode`
/// gives back the scalar whose bytes `encode` wrote is not stated anywhere
/// in this library.
pub proof fn law_round_trip(doc: Document)
    requires
        faithful(doc),
    ensures
        plain_keys(doc),
        flattened(doc, Seq::empty()).error is None,
        flattened(doc, Seq::empty()).rows == flat_rows(doc, Seq::empty()),
        rebuild(put_all(Seq::empty(), flat_rows(doc, Seq::empty())), Seq::empty()) == normal_form(
            doc,
        ),
{
    let root = Seq::<u8>::empty();
    let rows = flat_rows(doc, root);
    lemma_faithful_plain_keys(doc);
    lemma_flattened_plain(doc, root);
    lemma_flat_rows_spread(doc, root);
    lemma_store_order_is_immaterial(rows, root);
    lemma_rebuild_flat_rows(doc, root);
    lemma_rebuild_is_onto_null(put_all(Seq::empty(), rows), root);
}

/// A key that goes on with a delimiter right after the prefix: the segment
/// that follows the prefix in it is empty.
pub open spec fn headless(prefix: Seq<u8>, key: Seq<u8>) -> bool {
    (prefix + seq![DELIMITER]).is_prefix_of(key)
}

/// Some entry at or after position `from` has a headless key.
pub open spec fn holds_headless(entries: Seq<Entry>, prefix: Seq<u8>, from: int) -> bool {
    exists|i: int| from <= i < entries.len() && headless(prefix, (#[trigger] entries[i]).key)
}

/// Some entry has the prefix itself as its key.
pub open spec fn holds_key(entries: Seq<Entry>, key: Seq<u8>) -> bool {
    exists|i: int| 0 <= i < entries.len() && (#[trigger] entries[i]).key == key
}

/// A headless key lies below the prefix and has an empty first segment, and
/// the other way round.
pub proof fn lemma_headless(prefix: Seq<u8>, key: Seq<u8>)
    ensures
        headless(prefix, key) <==> below(prefix, key) && first_segment(
            key,
            prefix.len() as int,
        ).len() == 0,
{
    let start = prefix.len() as int;
    let marked = prefix + seq![DELIMITER];
    if headless(prefix, key) {
        assert forall|j: int| 0 <= j < marked.len() implies key[j] == marked[j] by {
            assert(key.subrange(0, marked.len() as int)[j] == marked[j]);
        }
        assert(key.subrange(0, start) =~= prefix);
        assert(key[start] == DELIMITER);
    }
    if below(prefix, key) && first_segment(key, start).len() == 0 {
        lemma_run_end_bounds(key, start);
        assert(run_end(key, start) == start);
        assert forall|j: int| 0 <= j < marked.len() implies key[j] == marked[j] by {
            if j < start {
                assert(key.subrange(0, start)[j] == prefix[j]);
            }
        }
        assert(key.subrange(0, marked.len() as int) =~= marked);
    }
}

/// A headless key that follows a key with a child's name in it lies at or
/// beyond that child's bookend.
pub proof fn lemma_headless_beyond_bookend(prefix: Seq<u8>, first: Seq<u8>, key: Seq<u8>)
    requires
        below(prefix, first),
        first_segment(first, prefix.len() as int).len() > 0,
        headless(prefix, key),
        key_lt(first, key),
    ensures
        key_le(bookend(prefix, first_segment(first, prefix.len() as int)), key),
{
    let start = prefix.len() as int;
    let target = bookend(prefix, first_segment(first, start));
    lemma_headless(prefix, key);
    lemma_run_end_bounds(first, start);
    assert(first[start] != DELIMITER);
    assert(key[start] == DELIMITER) by {
        lemma_run_end_bounds(key, start);
    }
    assert forall|j: int| 0 <= j < start implies first[j] == key[j] by {
        assert(first.subrange(0, start)[j] == prefix[j]);
        assert(key.subrange(0, start)[j] == prefix[j]);
    }
    lemma_mismatch_is(first, key, 0, start);
    assert(first[start] < DELIMITER);
    assert(target[start] == first[start]);
    assert forall|j: int| 0 <= j < start implies target[j] == key[j] by {
        assert(key.subrange(0, start)[j] == prefix[j]);
    }
    lemma_mismatch_is(target, key, 0, start);
    lemma_key_lt_asymmetric(target, key);
}

/// From a position on, the scan has no answer exactly if a headless key
/// lies ahead, as long as no key is the prefix and the seek target has
/// passed over no headless key.
pub proof fn lemma_scan_fails(entries: Seq<Entry>, prefix: Seq<u8>, from: int, target: Seq<u8>)
    requires
        ascending(entries),
        !holds_key(entries, prefix),
        0 <= from <= entries.len(),
        key_le(prefix, target),
        forall|i: int|
            from <= i < entries.len() && headless(prefix, (#[trigger] entries[i]).key) ==> key_le(
                target,
                entries[i].key,
            ),
    ensures
        scan_children(entries, prefix, from, target) is None <==> holds_headless(
            entries,
            prefix,
            from,
        ),
    decreases entries.len() - from,
{
    let start = prefix.len() as int;
    if from >= entries.len() {
    } else if key_lt(entries[from].key, target) {
        lemma_scan_fails(entries, prefix, from + 1, target);
        if holds_headless(entries, prefix, from) {
            let i = choose|i: int|
                from <= i < entries.len() && headless(prefix, (#[trigger] entries[i]).key);
            assert(from + 1 <= i < entries.len() && headless(prefix, entries[i].key));
        }
        if holds_headless(entries, prefix, from + 1) {
            let i = choose|i: int|
                from + 1 <= i < entries.len() && headless(prefix, (#[trigger] entries[i]).key);
            assert(from <= i < entries.len() && headless(prefix, entries[i].key));
        }
    } else if !below(prefix, entries[from].key) {
        let key = entries[from].key;
        assert(!prefix.is_prefix_of(key)) by {
            if prefix.is_prefix_of(key) {
                assert(key =~= prefix);
                assert(entries[from].key == prefix);
            }
        }
        assert(key_le(prefix, key)) by {
            if key_lt(key, prefix) {
                lemma_key_lt_le_transitive(key, prefix, target);
            }
        }
        if holds_headless(entries, prefix, from) {
            let i = choose|i: int|
                from <= i < entries.len() && headless(prefix, (#[trigger] entries[i]).key);
            lemma_headless(prefix, entries[i].key);
            lemma_prefix_range_ends(prefix, entries[i].key, key);
            if i > from {
                lemma_key_lt_asymmetric(entries[from].key, entries[i].key);
            }
        }
    } else {
        let key = entries[from].key;
        let segment = first_segment(key, start);
        lemma_headless(prefix, key);
        if segment.len() == 0 {
            assert(from <= from < entries.len() && headless(prefix, entries[from].key));
        } else {
            let beyond = bookend(prefix, segment);
            assert(prefix.is_prefix_of(beyond)) by {
                assert(beyond.subrange(0, start) =~= prefix);
            }
            lemma_prefix_sorts_first(prefix, beyond);
            assert forall|i: int|
                from + 1 <= i < entries.len() && headless(
                    prefix,
                    (#[trigger] entries[i]).key,
                ) implies key_le(beyond, entries[i].key) by {
                assert(key_lt(entries[from].key, entries[i].key));
                lemma_headless_beyond_bookend(prefix, key, entries[i].key);
            }
            lemma_scan_fails(entries, prefix, from + 1, beyond);
            if holds_headless(entries, prefix, from) {
                let i = choose|i: int|
                    from <= i < entries.len() && headless(prefix, (#[trigger] entries[i]).key);
                assert(from + 1 <= i < entries.len() && headless(prefix, entries[i].key));
            }
            if holds_headless(entries, prefix, from + 1) {
                let i = choose|i: int|
                    from + 1 <= i < entries.len() && headless(prefix, (#[trigger] entries[i]).key);
                assert(from <= i < entries.len() && headless(prefix, entries[i].key));
            }
        }
    }
}

/// When child listing fails: in a store that does not hold the prefix as a
/// key, the listing has no answer exactly if some key goes on with a
/// delimiter right after the prefix.
pub proof fn law_listing_fails_exactly(entries: Seq<Entry>, prefix: Seq<u8>)
    requires
        ascending(entries),
        !holds_key(entries, prefix),
    ensures
        children(entries, prefix) is None <==> holds_headless(entries, prefix, 0),
{
    lemma_mismatch_is(prefix, prefix, 0, prefix.len() as int);
    assert forall|i: int|
        0 <= i < entries.len() && headless(prefix, (#[trigger] entries[i]).key) implies key_le(
        prefix,
        entries[i].key,
    ) by {
        lemma_headless(prefix, entries[i].key);
        lemma_prefix_sorts_first(prefix, entries[i].key);
    }
    lemma_scan_fails(entries, prefix, 0, prefix);
}

/// A store that holds the prefix itself as a key lists no children under
/// it: the first seek lands on that key, and the listing ends there.
pub proof fn law_listing_stops_at_the_prefix(entries: Seq<Entry>, prefix: Seq<u8>)
    requires
        ascending(entries),
        holds_key(entries, prefix),
    ensures
        children(entries, prefix) == Some(Seq::<Seq<u8>>::empty()),
{
    let at = choose|i: int| 0 <= i < entries.len() && (#[trigger] entries[i]).key == prefix;
    lemma_key_lt_irreflexive(prefix);
    lemma_stops_at(entries, prefix, 0, at);
}

/// The scan ends at the entry whose key is the prefix, whatever lies before.
pub proof fn lemma_stops_at(entries: Seq<Entry>, prefix: Seq<u8>, from: int, at: int)
    requires
        ascending(entries),
        0 <= from <= at < entries.len(),
        entries[at].key == prefix,
    ensures
        scan_children(entries, prefix, from, prefix) == Some(Seq::<Seq<u8>>::empty()),
    decreases at - from,
{
    lemma_key_lt_irreflexive(prefix);
    if from < at {
        assert(key_lt(entries[from].key, entries[at].key));
        lemma_stops_at(entries, prefix, from + 1, at);
    }
}

/// The keys that start with a prefix lie together in the key order: a key
/// between two of them starts with the prefix too.
pub proof fn law_prefix_range_contiguous(
    prefix: Seq<u8>,
    low: Seq<u8>,
    mid: Seq<u8>,
    high: Seq<u8>,
)
    requires
        prefix.is_prefix_of(low),
        prefix.is_prefix_of(high),
        key_le(low, mid),
        key_le(mid, high),
    ensures
        prefix.is_prefix_of(mid),
{
    if !prefix.is_prefix_of(mid) {
        lemma_prefix_sorts_first(prefix, low);
        if key_lt(mid, prefix) {
            lemma_key_lt_le_transitive(mid, prefix, low);
        } else {
            lemma_prefix_range_ends(prefix, high, mid);
        }
    }
}

/// In a key that has a delimiter at or after a position, the run that
/// starts at the position ends where it ends in any longer key.
pub proof fn lemma_run_end_in_longer(bytes: Seq<u8>, more: Seq<u8>, i: int)
    requires
        0 <= i <= bytes.len(),
        run_end(bytes, i) < bytes.len(),
    ensures
        run_end(bytes + more, i) == run_end(bytes, i),
{
    lemma_run_end_bounds(bytes, i);
    let end = run_end(bytes, i);
    assert forall|j: int| i <= j < end implies (bytes + more)[j] != DELIMITER by {
        assert((bytes + more)[j] == bytes[j]);
    }
    assert((bytes + more)[end] == bytes[end]);
    lemma_run_end_is(bytes + more, i, end);
}

/// One more segment at the end of a key of whole segments is one more
/// segment at the end of what is read from it.
pub proof fn lemma_segments_of_longer(bytes: Seq<u8>, segment: Seq<u8>, i: int)
    requires
        0 <= i <= bytes.len(),
        bytes.len() == 0 || bytes.last() == DELIMITER,
        plain_segment(segment),
    ensures
        segments_from(bytes + segment + seq![DELIMITER], i) == segments_from(bytes, i).push(
            segment,
        ),
    decreases bytes.len() - i,
{
    let tail = segment + seq![DELIMITER];
    let longer = bytes + segment + seq![DELIMITER];
    assert(longer =~= bytes + tail);
    if i == bytes.len() {
        let end = i + segment.len();
        assert forall|j: int| i <= j < end implies longer[j] != DELIMITER by {
            assert(longer[j] == segment[j - i]);
        }
        assert(longer[end] == DELIMITER);
        lemma_run_end_is(longer, i, end);
        assert(longer.subrange(i, end) =~= segment);
        assert(segments_from(longer, end + 1) =~= Seq::<Seq<u8>>::empty());
        assert(segments_from(bytes, i) =~= Seq::<Seq<u8>>::empty());
        assert(segments_from(longer, i) =~= segments_from(bytes, i).push(segment));
    } else {
        lemma_run_end_bounds(bytes, i);
        let end = run_end(bytes, i);
        assert(end < bytes.len()) by {
            if end == bytes.len() {
                assert(bytes[bytes.len() - 1] != DELIMITER);
            }
        }
        lemma_run_end_in_longer(bytes, tail, i);
        assert(longer.subrange(i, end) =~= bytes.subrange(i, end));
        lemma_segments_of_longer(bytes, segment, end + 1);
        let head = if end > i {
            seq![bytes.subrange(i, end)]
        } else {
            Seq::<Seq<u8>>::empty()
        };
        assert(segments_from(bytes, i) == head + segments_from(bytes, end + 1));
        assert(segments_from(longer, i) == head + segments_from(longer, end + 1));
        assert(head + segments_from(bytes, end + 1).push(segment) =~= (head + segments_from(
            bytes,
            end + 1,
        )).push(segment));
    }
}

/// The key of a path ends in the delimiter unless the path is empty.
pub proof fn lemma_encode_path_terminated(path: Seq<Seq<u8>>)
    ensures
        encode_path(path).len() == 0 || encode_path(path).last() == DELIMITER,
{
}

/// A path reads back from its key: splitting the key of a path of plain
/// segments gives the path.
pub proof fn law_path_reads_back(path: Seq<Seq<u8>>)
    requires
        forall|i: int| 0 <= i < path.len() ==> plain_segment(#[trigger] path[i]),
    ensures
        segments_from(encode_path(path), 0) == path,
    decreases path.len(),
{
    if path.len() == 0 {
        assert(segments_from(encode_path(path), 0) =~= path);
    } else {
        let shorter = path.drop_last();
        assert forall|i: int| 0 <= i < shorter.len() implies plain_segment(
            #[trigger] shorter[i],
        ) by {
            assert(shorter[i] == path[i]);
        }
        law_path_reads_back(shorter);
        lemma_encode_path_terminated(shorter);
        assert(plain_segment(path[path.len() - 1]));
        lemma_segments_of_longer(encode_path(shorter), path.last(), 0);
        assert(shorter.push(path.last()) =~= path);
    }
}

/// A path of plain segments.
pub open spec fn plain_path(path: Seq<Seq<u8>>) -> bool {
    forall|i: int| 0 <= i < path.len() ==> plain_segment(#[trigger] path[i])
}

/// A key that is the key of a path of plain segments.
pub open spec fn path_key(key: Seq<u8>) -> bool {
    exists|path: Seq<Seq<u8>>| plain_path(path) && #[trigger] encode_path(path) == key
}

/// Every row of a list has the key of a path of plain segments.
pub open spec fn path_keys(rows: Seq<Entry>) -> bool {
    forall|i: int| 0 <= i < rows.len() ==> path_key((#[trigger] rows[i]).key)
}

/// The key of a child with a plain name, below the key of a path, is the
/// key of a path.
pub proof fn lemma_child_path_key(at: Seq<u8>, name: Seq<u8>)
    requires
        path_key(at),
        plain_segment(name),
    ensures
        path_key(at + name + seq![DELIMITER]),
{
    let path = choose|path: Seq<Seq<u8>>| plain_path(path) && #[trigger] encode_path(path) == at;
    let longer = path.push(name);
    assert(longer.drop_last() =~= path);
    assert(plain_path(longer)) by {
        assert forall|i: int| 0 <= i < longer.len() implies plain_segment(
            #[trigger] longer[i],
        ) by {
            if i < path.len() {
                assert(longer[i] == path[i]);
            }
        }
    }
    assert(encode_path(longer) == at + name + seq![DELIMITER]);
}

/// Two lists of rows with keys of paths make one such list.
pub proof fn lemma_path_keys_concat(first: Seq<Entry>, second: Seq<Entry>)
    requires
        path_keys(first),
        path_keys(second),
    ensures
        path_keys(first + second),
{
    let all = first + second;
    assert forall|i: int| 0 <= i < all.len() implies path_key((#[trigger] all[i]).key) by {
        if i < first.len() {
            assert(all[i] == first[i]);
        } else {
            assert(all[i] == second[i - first.len()]);
        }
    }
}

/// Every row that a traversal hands over, from the key of a path on, has
/// the key of a path of plain segments.
pub proof fn lemma_flattened_path_keys(d: Document, at: Seq<u8>)
    requires
        path_key(at),
    ensures
        path_keys(flattened(d, at).rows),
    decreases d,
{
    match d {
        Document::Leaf(_) => {},
        Document::Array(items) => {
            lemma_flattened_items_path_keys(items@, at);
        },
        Document::Object(entries) => {
            lemma_flattened_entries_path_keys(entries@, at);
        },
    }
}

/// The same of the elements of an array.
pub proof fn lemma_flattened_items_path_keys(items: Seq<Document>, at: Seq<u8>)
    requires
        path_key(at),
    ensures
        path_keys(flattened_items(items, at).rows),
    decreases items,
{
    if items.len() > 0 {
        let name = decimal((items.len() - 1) as nat);
        lemma_flattened_items_path_keys(items.drop_last(), at);
        lemma_decimal_digits((items.len() - 1) as nat);
        lemma_child_path_key(at, name);
        lemma_flattened_path_keys(items.last(), at + name + seq![DELIMITER]);
        lemma_path_keys_concat(
            flattened_items(items.drop_last(), at).rows,
            flattened(items.last(), at + name + seq![DELIMITER]).rows,
        );
    }
}

/// The same of the entries of an object.
pub proof fn lemma_flattened_entries_path_keys(entries: Seq<(Vec<u8>, Document)>, at: Seq<u8>)
    requires
        path_key(at),
    ensures
        path_keys(flattened_entries(entries, at).rows),
    decreases entries,
{
    if entries.len() > 0 {
        let name = entries.last().0@;
        lemma_flattened_entries_path_keys(entries.drop_last(), at);
        if segment_error(name) is None {
            lemma_child_path_key(at, name);
            lemma_flattened_path_keys(entries.last().1, at + name + seq![DELIMITER]);
            lemma_path_keys_concat(
                flattened_entries(entries.drop_last(), at).rows,
                flattened(entries.last().1, at + name + seq![DELIMITER]).rows,
            );
        }
    }
}

/// No segment of a written key holds the delimiter or is empty: every row
/// that flattening hands over, of whatever document and however far the
/// traversal gets, has the key of a path of plain segments, and that path
/// is what is read back from the key.
pub proof fn law_row_keys_are_paths(doc: Document, i: int)
    requires
        0 <= i < flattened(doc, Seq::empty()).rows.len(),
    ensures
        path_key(flattened(doc, Seq::empty()).rows[i].key),
        plain_path(segments_from(flattened(doc, Seq::empty()).rows[i].key, 0)),
        encode_path(segments_from(flattened(doc, Seq::empty()).rows[i].key, 0)) == flattened(
            doc,
            Seq::empty(),
        ).rows[i].key,
{
    let root = Seq::<u8>::empty();
    let none = Seq::<Seq<u8>>::empty();
    assert(plain_path(none) && encode_path(none) == root);
    lemma_flattened_path_keys(doc, root);
    let key = flattened(doc, root).rows[i].key;
    assert(path_key(key));
    let path = choose|path: Seq<Seq<u8>>| plain_path(path) && #[trigger] encode_path(path) == key;
    law_path_reads_back(path);
}

} // verus!
