//! Rebuilding a nested document from the rows under a prefix.

use crate::path::{
    copy_range, key_le, lemma_key_lt_asymmetric, lemma_prefix_range_ends,
    lemma_prefix_sorts_first, same_bytes, segments_from, segments_view, split_segments,
    starts_with,
};
use crate::store::{ascending, lemma_lower_bound, Entry, Store};
use crate::value::{entries_tree, null_tree, tree_of, Document, Scalar, Tree};
use vstd::pervasive::VecAdditionalExecFns;
use vstd::prelude::*;

verus! {

/// The tree with `leaf` put at `path`. On the way down, a node that is not
/// a map gives way to an empty map, whatever it held, and a missing entry
/// is made; at the end of the path `leaf` takes the place of what was there.
pub open spec fn tree_insert(t: Tree, path: Seq<Seq<u8>>, leaf: Tree) -> Tree
    decreases path.len(),
{
    if path.len() == 0 {
        leaf
    } else {
        let children = match t {
            Tree::Node(m) => m,
            _ => Map::empty(),
        };
        let child = if children.dom().contains(path[0]) {
            children[path[0]]
        } else {
            null_tree()
        };
        Tree::Node(children.insert(path[0], tree_insert(child, path.drop_first(), leaf)))
    }
}

/// The tree after one row is taken in under `prefix`: a row whose key
/// starts with the prefix puts its value at the path that is left of the
/// key once the prefix is taken off, split at the delimiter, empty segments
/// dropped; any other row changes nothing.
pub open spec fn absorb(t: Tree, prefix: Seq<u8>, row: Entry) -> Tree {
    if prefix.is_prefix_of(row.key) {
        tree_insert(t, segments_from(row.key, prefix.len() as int), Tree::Leaf(row.value))
    } else {
        t
    }
}

/// The document that the rows under `prefix` stand for: starting from null,
/// each row is taken in, in the order of the store.
pub open spec fn rebuild(entries: Seq<Entry>, prefix: Seq<u8>) -> Tree
    decreases entries.len(),
{
    if entries.len() == 0 {
        null_tree()
    } else {
        absorb(rebuild(entries.drop_last(), prefix), prefix, entries.last())
    }
}

/// A key that no entry has is not in the map of the entries.
pub proof fn lemma_entries_tree_absent(entries: Seq<(Vec<u8>, Document)>, key: Seq<u8>)
    requires
        forall|i: int| 0 <= i < entries.len() ==> (#[trigger] entries[i]).0@ != key,
    ensures
        !entries_tree(entries).dom().contains(key),
    decreases entries.len(),
{
    if entries.len() > 0 {
        let shorter = entries.drop_last();
        assert forall|i: int| 0 <= i < shorter.len() implies (#[trigger] shorter[i]).0@ != key by {
            assert(shorter[i] == entries[i]);
        }
        lemma_entries_tree_absent(shorter, key);
    }
}

/// The map of the entries sends a key to the child of the last entry that
/// has it.
pub proof fn lemma_entries_tree_last(entries: Seq<(Vec<u8>, Document)>, at: int, key: Seq<u8>)
    requires
        0 <= at < entries.len(),
        entries[at].0@ == key,
        forall|i: int| at < i < entries.len() ==> (#[trigger] entries[i]).0@ != key,
    ensures
        entries_tree(entries).dom().contains(key),
        entries_tree(entries)[key] == tree_of(entries[at].1),
    decreases entries.len(),
{
    if at < entries.len() - 1 {
        let shorter = entries.drop_last();
        assert(shorter[at] == entries[at]);
        assert forall|i: int| at < i < shorter.len() implies (#[trigger] shorter[i]).0@ != key by {
            assert(shorter[i] == entries[i]);
        }
        lemma_entries_tree_last(shorter, at, key);
    }
}

/// Replacing the last entry that has a key by one of the same key puts the
/// new child at that key and changes nothing else.
pub proof fn lemma_entries_tree_update(
    entries: Seq<(Vec<u8>, Document)>,
    at: int,
    entry: (Vec<u8>, Document),
)
    requires
        0 <= at < entries.len(),
        entries[at].0@ == entry.0@,
        forall|i: int| at < i < entries.len() ==> (#[trigger] entries[i]).0@ != entry.0@,
    ensures
        entries_tree(entries.update(at, entry)) == entries_tree(entries).insert(
            entry.0@,
            tree_of(entry.1),
        ),
    decreases entries.len(),
{
    let updated = entries.update(at, entry);
    if at == entries.len() - 1 {
        assert(updated.drop_last() =~= entries.drop_last());
        assert(entries_tree(updated) =~= entries_tree(entries).insert(entry.0@, tree_of(entry.1)));
    } else {
        let shorter = entries.drop_last();
        assert(shorter[at] == entries[at]);
        assert forall|i: int| at < i < shorter.len() implies (#[trigger] shorter[i]).0@
            != entry.0@ by {
            assert(shorter[i] == entries[i]);
        }
        lemma_entries_tree_update(shorter, at, entry);
        assert(updated.drop_last() =~= shorter.update(at, entry));
        assert(updated.last() == entries.last());
        assert(entries_tree(updated) =~= entries_tree(entries).insert(entry.0@, tree_of(entry.1)));
    }
}

/// Rows that do not start with the prefix add nothing to the rebuilt
/// document, wherever they stand after position `upto`.
pub proof fn lemma_rebuild_ignores_tail(entries: Seq<Entry>, prefix: Seq<u8>, upto: int)
    requires
        0 <= upto <= entries.len(),
        forall|j: int|
            upto <= j < entries.len() ==> !prefix.is_prefix_of(#[trigger] entries[j].key),
    ensures
        rebuild(entries, prefix) == rebuild(entries.subrange(0, upto), prefix),
    decreases entries.len(),
{
    if upto == entries.len() {
        assert(entries.subrange(0, upto) =~= entries);
    } else {
        let shorter = entries.drop_last();
        assert(!prefix.is_prefix_of(entries[entries.len() - 1].key));
        assert forall|j: int| upto <= j < shorter.len() implies !prefix.is_prefix_of(
            #[trigger] shorter[j].key,
        ) by {
            assert(shorter[j] == entries[j]);
        }
        lemma_rebuild_ignores_tail(shorter, prefix, upto);
        assert(shorter.subrange(0, upto) =~= entries.subrange(0, upto));
    }
}

/// With no row under the prefix the rebuilt document is null.
pub proof fn lemma_rebuild_nothing(entries: Seq<Entry>, prefix: Seq<u8>)
    requires
        forall|j: int| 0 <= j < entries.len() ==> !prefix.is_prefix_of(#[trigger] entries[j].key),
    ensures
        rebuild(entries, prefix) == null_tree(),
{
    lemma_rebuild_ignores_tail(entries, prefix, 0);
    assert(entries.subrange(0, 0) =~= Seq::<Entry>::empty());
}

/// `doc` with `value` put at the part of `path` from `depth` on.
fn insert_at(doc: Document, path: &[Vec<u8>], depth: usize, value: Document) -> (r: Document)
    requires
        depth <= path.len(),
    ensures
        r@ == tree_insert(doc@, segments_view(path@).skip(depth as int), value@),
    decreases path.len() - depth,
{
    let ghost rest = segments_view(path@).skip(depth as int);
    if depth == path.len() {
        return value;
    }
    let key = &path[depth];
    assert(rest[0] == key@);
    assert(rest.drop_first() =~= segments_view(path@).skip(depth as int + 1));
    let ghost children = match doc@ {
        Tree::Node(m) => m,
        _ => Map::empty(),
    };
    let mut entries: Vec<(Vec<u8>, Document)> = match doc {
        Document::Object(entries) => entries,
        _ => Vec::new(),
    };
    assert(entries_tree(entries@) == children);
    let mut found: usize = entries.len();
    while found > 0 && !same_bytes(entries[found - 1].0.as_slice(), key.as_slice())
        invariant
            found <= entries.len(),
            forall|i: int| found <= i < entries.len() ==> (#[trigger] entries@[i]).0@ != key@,
        decreases found,
    {
        found -= 1;
    }
    if found > 0 {
        let at = found - 1;
        let ghost before = entries@;
        proof {
            lemma_entries_tree_last(before, at as int, key@);
        }
        let mut slot: (Vec<u8>, Document) = (Vec::new(), Document::Leaf(Scalar::Null));
        entries.set_and_swap(at, &mut slot);
        let (name, child) = slot;
        let grown = insert_at(child, path, depth + 1, value);
        let ghost entry = (name, grown);
        entries.set(at, (name, grown));
        proof {
            assert(entries@ =~= before.update(at as int, entry));
            lemma_entries_tree_update(before, at as int, entry);
        }
    } else {
        let ghost before = entries@;
        proof {
            lemma_entries_tree_absent(before, key@);
        }
        let grown = insert_at(Document::Leaf(Scalar::Null), path, depth + 1, value);
        let name = copy_range(key.as_slice(), 0, key.len());
        assert(key@.subrange(0, key@.len() as int) =~= key@);
        entries.push((name, grown));
        assert(entries@.drop_last() =~= before);
    }
    Document::Object(entries)
}

/// Puts `value` into `json` at `path`, one segment per level. Every node on
/// the way that is not an object is replaced by an empty object first, and
/// missing entries are made; with an empty path `value` replaces `json`
/// itself.
pub fn set_json(json: &mut Document, path: &[Vec<u8>], value: Document)
    ensures
        final(json)@ == tree_insert(old(json)@, segments_view(path@), value@),
{
    let mut taken = Document::Leaf(Scalar::Null);
    core::mem::swap(json, &mut taken);
    assert(segments_view(path@).skip(0) =~= segments_view(path@));
    let mut grown = insert_at(taken, path, 0, value);
    core::mem::swap(json, &mut grown);
}

/// Takes one row into the document that is being rebuilt under `prefix`.
/// Returns whether the key starts with the prefix; if it does not, the
/// document stays as it is.
pub fn absorb_row(json: &mut Document, prefix: &[u8], key: &[u8], value: Scalar) -> (taken: bool)
    ensures
        taken == prefix@.is_prefix_of(key@),
        final(json)@ == absorb(old(json)@, prefix@, Entry { key: key@, value }),
{
    if !starts_with(key, prefix) {
        return false;
    }
    let path = split_segments(key, prefix.len());
    set_json(json, path.as_slice(), Document::Leaf(value));
    true
}

/// The document that the rows of `store` under `prefix` stand for. The rows
/// are taken in ascending key order; the prefix is taken off each key, the
/// rest is split at the delimiter, empty segments are dropped, and the
/// row's value is put at that path. Without any such row the result is
/// null.
pub fn reconstruct(store: &Store, prefix: &[u8]) -> (doc: Document)
    ensures
        doc@ == rebuild(store@, prefix@),
        (forall|j: int| 0 <= j < store@.len() ==> !prefix@.is_prefix_of(#[trigger] store@[j].key))
            ==> doc@ == null_tree(),
{
    let mut json = Document::Leaf(Scalar::Null);
    let start = store.seek(prefix);
    let count = store.len();
    let mut i: usize = start;
    proof {
        lemma_lower_bound(store@, prefix@);
        assert forall|j: int| 0 <= j < start implies !prefix@.is_prefix_of(
            #[trigger] store@.subrange(0, start as int)[j].key,
        ) by {
            if prefix@.is_prefix_of(store@[j].key) {
                lemma_prefix_sorts_first(prefix@, store@[j].key);
            }
        }
        lemma_rebuild_nothing(store@.subrange(0, start as int), prefix@);
    }
    while i < count
        invariant
            start <= i <= count,
            count == store@.len(),
            ascending(store@),
            json@ == rebuild(store@.subrange(0, i as int), prefix@),
            forall|j: int| start <= j < store@.len() ==> key_le(prefix@, #[trigger] store@[j].key),
        ensures
            i <= count,
            json@ == rebuild(store@.subrange(0, i as int), prefix@),
            forall|j: int|
                i <= j < store@.len() ==> !prefix@.is_prefix_of(#[trigger] store@[j].key),
        decreases count - i,
    {
        let row = store.row(i);
        if !absorb_row(&mut json, prefix, row.key.as_slice(), row.value.duplicate()) {
            proof {
                assert forall|j: int| i <= j < store@.len() implies !prefix@.is_prefix_of(
                    #[trigger] store@[j].key,
                ) by {
                    if j > i && prefix@.is_prefix_of(store@[j].key) {
                        lemma_prefix_range_ends(prefix@, store@[j].key, store@[i as int].key);
                        lemma_key_lt_asymmetric(store@[j].key, store@[i as int].key);
                    }
                }
            }
            break ;
        }
        proof {
            let longer = store@.subrange(0, i as int + 1);
            assert(longer.drop_last() =~= store@.subrange(0, i as int));
            assert(longer.last() == store@[i as int]);
        }
        i += 1;
    }
    proof {
        lemma_rebuild_ignores_tail(store@, prefix@, i as int);
        if forall|j: int|
            0 <= j < store@.len() ==> !prefix@.is_prefix_of(#[trigger] store@[j].key) {
            lemma_rebuild_nothing(store@, prefix@);
        }
    }
    json
}

} // verus!
