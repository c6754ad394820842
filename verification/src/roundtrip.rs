//! Why flattening a document into a store and rebuilding it gives the
//! document back, up to arrays being read as maps of their indices.

use crate::flatten::{
    flat_entries, flat_items, flat_rows, plain_keys, plain_keys_entries, plain_keys_items,
};
use crate::path::{
    decimal, lemma_decimal_digits, lemma_decimal_injective, lemma_run_end_is, plain_segment,
    segments_from, DELIMITER,
};
use crate::laws::{lemma_put_all_written, written};
use crate::store::{
    lemma_lower_bound, lemma_put_all_ascending, lemma_store_map_entry, lower_bound,
    put_all, store_map, Entry,
};
use crate::subtree::{absorb, rebuild, tree_insert};
use crate::value::{
    entries_normal_form, items_normal_form, normal_form, null_tree, Document, Scalar, Tree,
};
use vstd::prelude::*;

verus! {

/// The children of a tree: its map if it is a node, none otherwise.
pub open spec fn kids(t: Tree) -> Map<Seq<u8>, Tree> {
    match t {
        Tree::Node(m) => m,
        _ => Map::empty(),
    }
}

/// The child of a tree at `name`, or null where there is none.
pub open spec fn kid(t: Tree, name: Seq<u8>) -> Tree {
    if kids(t).dom().contains(name) {
        kids(t)[name]
    } else {
        null_tree()
    }
}

/// The key of the child `name` of the node at `at`.
pub open spec fn child_key(at: Seq<u8>, name: Seq<u8>) -> Seq<u8> {
    at + name + seq![DELIMITER]
}

/// The tree after the rows are taken in under `prefix`, one after the other.
pub open spec fn rebuild_onto(t: Tree, rows: Seq<Entry>, prefix: Seq<u8>) -> Tree
    decreases rows.len(),
{
    if rows.len() == 0 {
        t
    } else {
        absorb(rebuild_onto(t, rows.drop_last(), prefix), prefix, rows.last())
    }
}

/// Rebuilding is taking the rows in, starting from null.
pub proof fn lemma_rebuild_is_onto_null(rows: Seq<Entry>, prefix: Seq<u8>)
    ensures
        rebuild(rows, prefix) == rebuild_onto(null_tree(), rows, prefix),
    decreases rows.len(),
{
    if rows.len() > 0 {
        lemma_rebuild_is_onto_null(rows.drop_last(), prefix);
    }
}

/// Taking in two runs of rows one after the other is taking in their
/// concatenation.
pub proof fn lemma_rebuild_onto_concat(
    t: Tree,
    first: Seq<Entry>,
    second: Seq<Entry>,
    prefix: Seq<u8>,
)
    ensures
        rebuild_onto(t, first + second, prefix) == rebuild_onto(
            rebuild_onto(t, first, prefix),
            second,
            prefix,
        ),
    decreases second.len(),
{
    if second.len() == 0 {
        assert(first + second =~= first);
    } else {
        lemma_rebuild_onto_concat(t, first, second.drop_last(), prefix);
        assert((first + second).drop_last() =~= first + second.drop_last());
        assert((first + second).last() == second.last());
    }
}

/// The path of a key below the child `name` starts with that name and goes
/// on with the path below the child.
pub proof fn lemma_segments_descend(at: Seq<u8>, name: Seq<u8>, key: Seq<u8>)
    requires
        plain_segment(name),
        child_key(at, name).is_prefix_of(key),
    ensures
        at.is_prefix_of(key),
        segments_from(key, at.len() as int) == seq![name] + segments_from(
            key,
            child_key(at, name).len() as int,
        ),
{
    let start = at.len() as int;
    let end = start + name.len();
    let whole = child_key(at, name);
    assert forall|j: int| 0 <= j < whole.len() implies key[j] == whole[j] by {
        assert(key.subrange(0, whole.len() as int)[j] == whole[j]);
    }
    assert(key.subrange(0, start) =~= at);
    assert forall|j: int| start <= j < end implies key[j] != DELIMITER by {
        assert(key[j] == whole[j]);
        assert(whole[j] == name[j - start]);
    }
    assert(key[end] == whole[end]);
    lemma_run_end_is(key, start, end);
    assert(key.subrange(start, end) =~= name);
}

/// Taking in a row that lies below the child `name` changes that child
/// alone: the row is taken in by the child.
pub proof fn lemma_absorb_descends(t: Tree, at: Seq<u8>, name: Seq<u8>, row: Entry)
    requires
        plain_segment(name),
        child_key(at, name).is_prefix_of(row.key),
    ensures
        absorb(t, at, row) == Tree::Node(
            kids(t).insert(name, absorb(kid(t, name), child_key(at, name), row)),
        ),
{
    lemma_segments_descend(at, name, row.key);
    let path = segments_from(row.key, at.len() as int);
    let rest = segments_from(row.key, child_key(at, name).len() as int);
    assert(path[0] == name);
    assert(path.drop_first() =~= rest);
}

/// Taking in rows that all lie below the child `name` changes that child
/// alone: the rows are taken in by the child.
pub proof fn lemma_rebuild_descends(t: Tree, at: Seq<u8>, name: Seq<u8>, rows: Seq<Entry>)
    requires
        plain_segment(name),
        rows.len() > 0,
        forall|i: int|
            0 <= i < rows.len() ==> child_key(at, name).is_prefix_of(#[trigger] rows[i].key),
    ensures
        rebuild_onto(t, rows, at) == Tree::Node(
            kids(t).insert(name, rebuild_onto(kid(t, name), rows, child_key(at, name))),
        ),
    decreases rows.len(),
{
    let below = child_key(at, name);
    let shorter = rows.drop_last();
    let last = rows.last();
    assert(below.is_prefix_of(rows[rows.len() - 1].key));
    if rows.len() == 1 {
        assert(rebuild_onto(t, shorter, at) == t);
        assert(rebuild_onto(kid(t, name), shorter, below) == kid(t, name));
        lemma_absorb_descends(t, at, name, last);
    } else {
        assert forall|i: int| 0 <= i < shorter.len() implies below.is_prefix_of(
            #[trigger] shorter[i].key,
        ) by {
            assert(shorter[i] == rows[i]);
        }
        lemma_rebuild_descends(t, at, name, shorter);
        let inner = rebuild_onto(kid(t, name), shorter, below);
        let middle = Tree::Node(kids(t).insert(name, inner));
        lemma_absorb_descends(middle, at, name, last);
        assert(kids(middle).insert(name, absorb(inner, below, last)) =~= kids(t).insert(
            name,
            absorb(inner, below, last),
        ));
    }
}

/// A document that comes back from its rows: no container in it is empty,
/// and the keys of every object are plain segments and all different.
pub open spec fn faithful(d: Document) -> bool
    decreases d,
{
    match d {
        Document::Leaf(_) => true,
        Document::Array(items) => items@.len() > 0 && faithful_items(items@),
        Document::Object(entries) => entries@.len() > 0 && faithful_entries(entries@),
    }
}

/// Every element is faithful.
pub open spec fn faithful_items(items: Seq<Document>) -> bool
    decreases items,
{
    items.len() == 0 || (faithful_items(items.drop_last()) && faithful(items.last()))
}

/// Every child is faithful, every key is a plain segment, and no key
/// occurs twice.
pub open spec fn faithful_entries(entries: Seq<(Vec<u8>, Document)>) -> bool
    decreases entries,
{
    entries.len() == 0 || (faithful_entries(entries.drop_last()) && faithful(entries.last().1)
        && plain_segment(entries.last().0@) && forall|i: int|
        0 <= i < entries.len() - 1 ==> (#[trigger] entries[i]).0@ != entries.last().0@)
}

/// The keys of a faithful document are plain, so flattening it meets no
/// key that it refuses.
pub proof fn lemma_faithful_plain_keys(d: Document)
    requires
        faithful(d),
    ensures
        plain_keys(d),
    decreases d,
{
    match d {
        Document::Leaf(_) => {},
        Document::Array(items) => {
            lemma_faithful_items_plain_keys(items@);
        },
        Document::Object(entries) => {
            lemma_faithful_entries_plain_keys(entries@);
        },
    }
}

/// The same of the elements of an array.
pub proof fn lemma_faithful_items_plain_keys(items: Seq<Document>)
    requires
        faithful_items(items),
    ensures
        plain_keys_items(items),
    decreases items,
{
    if items.len() > 0 {
        lemma_faithful_items_plain_keys(items.drop_last());
        lemma_faithful_plain_keys(items.last());
    }
}

/// The same of the entries of an object.
pub proof fn lemma_faithful_entries_plain_keys(entries: Seq<(Vec<u8>, Document)>)
    requires
        faithful_entries(entries),
    ensures
        plain_keys_entries(entries),
    decreases entries,
{
    if entries.len() > 0 {
        lemma_faithful_entries_plain_keys(entries.drop_last());
        lemma_faithful_plain_keys(entries.last().1);
    }
}

/// The key lies below the element at some position before `count`.
pub open spec fn below_an_item(count: int, at: Seq<u8>, key: Seq<u8>) -> bool {
    exists|j: int| 0 <= j < count && #[trigger] child_key(at, decimal(j as nat)).is_prefix_of(key)
}

/// The key lies below the child of some entry.
pub open spec fn below_an_entry(
    entries: Seq<(Vec<u8>, Document)>,
    at: Seq<u8>,
    key: Seq<u8>,
) -> bool {
    exists|j: int|
        0 <= j < entries.len() && child_key(at, (#[trigger] entries[j]).0@).is_prefix_of(key)
}

/// A prefix of a prefix is a prefix.
pub proof fn lemma_prefix_of_prefix(a: Seq<u8>, b: Seq<u8>, c: Seq<u8>)
    requires
        a.is_prefix_of(b),
        b.is_prefix_of(c),
    ensures
        a.is_prefix_of(c),
{
    assert forall|j: int| 0 <= j < a.len() implies c[j] == a[j] by {
        assert(b.subrange(0, a.len() as int)[j] == a[j]);
        assert(c.subrange(0, b.len() as int)[j] == b[j]);
    }
    assert(c.subrange(0, a.len() as int) =~= a);
}

/// The key of a node opens the key of each of its children.
pub proof fn lemma_child_key_below(at: Seq<u8>, name: Seq<u8>)
    ensures
        at.is_prefix_of(child_key(at, name)),
{
    assert(child_key(at, name).subrange(0, at.len() as int) =~= at);
}

/// Every row of a document lies at or below the key the document stands at.
pub proof fn lemma_flat_rows_below(d: Document, at: Seq<u8>)
    ensures
        forall|i: int|
            0 <= i < flat_rows(d, at).len() ==> at.is_prefix_of(#[trigger] flat_rows(d, at)[i].key),
    decreases d,
{
    match d {
        Document::Leaf(value) => {
            assert(at.subrange(0, at.len() as int) =~= at);
        },
        Document::Array(items) => {
            lemma_flat_items_below(items@, at);
            assert forall|i: int| 0 <= i < flat_rows(d, at).len() implies at.is_prefix_of(
                #[trigger] flat_rows(d, at)[i].key,
            ) by {
                let key = flat_rows(d, at)[i].key;
                assert(below_an_item(items@.len() as int, at, key));
                let j = choose|j: int|
                    0 <= j < items@.len() && #[trigger] child_key(
                        at,
                        decimal(j as nat),
                    ).is_prefix_of(key);
                lemma_child_key_below(at, decimal(j as nat));
                lemma_prefix_of_prefix(at, child_key(at, decimal(j as nat)), key);
            }
        },
        Document::Object(entries) => {
            lemma_flat_entries_below(entries@, at);
            assert forall|i: int| 0 <= i < flat_rows(d, at).len() implies at.is_prefix_of(
                #[trigger] flat_rows(d, at)[i].key,
            ) by {
                let key = flat_rows(d, at)[i].key;
                assert(below_an_entry(entries@, at, key));
                let j = choose|j: int|
                    0 <= j < entries@.len() && child_key(
                        at,
                        (#[trigger] entries@[j]).0@,
                    ).is_prefix_of(key);
                lemma_child_key_below(at, entries@[j].0@);
                lemma_prefix_of_prefix(at, child_key(at, entries@[j].0@), key);
            }
        },
    }
}

/// Every row of an array lies below one of its elements.
pub proof fn lemma_flat_items_below(items: Seq<Document>, at: Seq<u8>)
    ensures
        forall|i: int|
            0 <= i < flat_items(items, at).len() ==> below_an_item(
                items.len() as int,
                at,
                #[trigger] flat_items(items, at)[i].key,
            ),
    decreases items,
{
    if items.len() > 0 {
        let shorter = items.drop_last();
        let name = decimal((items.len() - 1) as nat);
        let before = flat_items(shorter, at);
        let rows = flat_rows(items.last(), child_key(at, name));
        lemma_flat_items_below(shorter, at);
        lemma_flat_rows_below(items.last(), child_key(at, name));
        assert forall|i: int| 0 <= i < flat_items(items, at).len() implies below_an_item(
            items.len() as int,
            at,
            #[trigger] flat_items(items, at)[i].key,
        ) by {
            let key = flat_items(items, at)[i].key;
            if i < before.len() {
                assert(key == before[i].key);
                assert(below_an_item(shorter.len() as int, at, key));
                let j = choose|j: int|
                    0 <= j < shorter.len() && #[trigger] child_key(
                        at,
                        decimal(j as nat),
                    ).is_prefix_of(key);
                assert(0 <= j < items.len() && child_key(at, decimal(j as nat)).is_prefix_of(key));
            } else {
                assert(key == rows[i - before.len()].key);
                let j = items.len() - 1;
                assert(child_key(at, decimal(j as nat)).is_prefix_of(key));
            }
        }
    }
}

/// Every row of an object lies below the child of one of its entries.
pub proof fn lemma_flat_entries_below(entries: Seq<(Vec<u8>, Document)>, at: Seq<u8>)
    ensures
        forall|i: int|
            0 <= i < flat_entries(entries, at).len() ==> below_an_entry(
                entries,
                at,
                #[trigger] flat_entries(entries, at)[i].key,
            ),
    decreases entries,
{
    if entries.len() > 0 {
        let shorter = entries.drop_last();
        let name = entries.last().0@;
        let before = flat_entries(shorter, at);
        let rows = flat_rows(entries.last().1, child_key(at, name));
        lemma_flat_entries_below(shorter, at);
        lemma_flat_rows_below(entries.last().1, child_key(at, name));
        assert forall|i: int| 0 <= i < flat_entries(entries, at).len() implies below_an_entry(
            entries,
            at,
            #[trigger] flat_entries(entries, at)[i].key,
        ) by {
            let key = flat_entries(entries, at)[i].key;
            if i < before.len() {
                assert(key == before[i].key);
                assert(below_an_entry(shorter, at, key));
                let j = choose|j: int|
                    0 <= j < shorter.len() && child_key(
                        at,
                        (#[trigger] shorter[j]).0@,
                    ).is_prefix_of(key);
                assert(shorter[j] == entries[j]);
                assert(child_key(at, entries[j].0@).is_prefix_of(key));
            } else {
                assert(key == rows[i - before.len()].key);
                let j = entries.len() - 1;
                assert(child_key(at, entries[j].0@).is_prefix_of(key));
            }
        }
    }
}

/// A faithful document has at least one row.
pub proof fn lemma_faithful_has_rows(d: Document, at: Seq<u8>)
    requires
        faithful(d),
    ensures
        flat_rows(d, at).len() > 0,
    decreases d,
{
    match d {
        Document::Leaf(_) => {},
        Document::Array(items) => {
            let name = decimal((items@.len() - 1) as nat);
            lemma_faithful_has_rows(items@.last(), child_key(at, name));
        },
        Document::Object(entries) => {
            let name = entries@.last().0@;
            lemma_faithful_has_rows(entries@.last().1, child_key(at, name));
        },
    }
}

/// The keys of the normal form of an array are the decimal positions of
/// its elements.
pub proof fn lemma_items_normal_form_keys(items: Seq<Document>, name: Seq<u8>)
    requires
        items_normal_form(items).dom().contains(name),
    ensures
        exists|j: int| 0 <= j < items.len() && name == #[trigger] decimal(j as nat),
    decreases items,
{
    if items.len() > 0 {
        if name == decimal((items.len() - 1) as nat) {
        } else {
            lemma_items_normal_form_keys(items.drop_last(), name);
            let j = choose|j: int|
                0 <= j < items.drop_last().len() && name == #[trigger] decimal(j as nat);
            assert(0 <= j < items.len() && name == decimal(j as nat));
        }
    }
}

/// The keys of the normal form of an object are the keys of its entries.
pub proof fn lemma_entries_normal_form_keys(entries: Seq<(Vec<u8>, Document)>, name: Seq<u8>)
    requires
        entries_normal_form(entries).dom().contains(name),
    ensures
        exists|j: int| 0 <= j < entries.len() && name == (#[trigger] entries[j]).0@,
    decreases entries,
{
    if entries.len() > 0 {
        if name == entries.last().0@ {
            assert(name == entries[entries.len() - 1].0@);
        } else {
            let shorter = entries.drop_last();
            lemma_entries_normal_form_keys(shorter, name);
            let j = choose|j: int| 0 <= j < shorter.len() && name == (#[trigger] shorter[j]).0@;
            assert(shorter[j] == entries[j]);
        }
    }
}

/// One more child: when the rows of a new child follow the rows taken in so
/// far, the rebuilt tree gains that child, rebuilt from its own rows.
pub proof fn lemma_rebuild_gains_child(
    before: Seq<Entry>,
    rows: Seq<Entry>,
    at: Seq<u8>,
    name: Seq<u8>,
)
    requires
        plain_segment(name),
        rows.len() > 0,
        forall|i: int|
            0 <= i < rows.len() ==> child_key(at, name).is_prefix_of(#[trigger] rows[i].key),
        !kids(rebuild_onto(null_tree(), before, at)).dom().contains(name),
    ensures
        rebuild_onto(null_tree(), before + rows, at) == Tree::Node(
            kids(rebuild_onto(null_tree(), before, at)).insert(
                name,
                rebuild_onto(null_tree(), rows, child_key(at, name)),
            ),
        ),
{
    lemma_rebuild_onto_concat(null_tree(), before, rows, at);
    lemma_rebuild_descends(rebuild_onto(null_tree(), before, at), at, name, rows);
}

/// Taking in the rows of a faithful document, at the key it stands at,
/// rebuilds its normal form.
pub proof fn lemma_rebuild_flat_rows(d: Document, at: Seq<u8>)
    requires
        faithful(d),
    ensures
        rebuild_onto(null_tree(), flat_rows(d, at), at) == normal_form(d),
    decreases d,
{
    match d {
        Document::Leaf(value) => {
            let rows = flat_rows(d, at);
            assert(rows.drop_last() =~= Seq::<Entry>::empty());
            assert(rebuild_onto(null_tree(), rows.drop_last(), at) == null_tree());
            assert(at.subrange(0, at.len() as int) =~= at);
            assert(segments_from(at, at.len() as int) =~= Seq::<Seq<u8>>::empty());
        },
        Document::Array(items) => {
            lemma_rebuild_flat_items(items@, at);
        },
        Document::Object(entries) => {
            lemma_rebuild_flat_entries(entries@, at);
        },
    }
}

/// Taking in the rows of the elements of an array rebuilds the map from
/// their positions to their normal forms.
pub proof fn lemma_rebuild_flat_items(items: Seq<Document>, at: Seq<u8>)
    requires
        faithful_items(items),
    ensures
        kids(rebuild_onto(null_tree(), flat_items(items, at), at)) == items_normal_form(items),
        items.len() > 0 ==> rebuild_onto(null_tree(), flat_items(items, at), at) is Node,
    decreases items,
{
    if items.len() > 0 {
        let shorter = items.drop_last();
        let name = decimal((items.len() - 1) as nat);
        let before = flat_items(shorter, at);
        let rows = flat_rows(items.last(), child_key(at, name));
        lemma_rebuild_flat_items(shorter, at);
        lemma_decimal_digits((items.len() - 1) as nat);
        lemma_faithful_has_rows(items.last(), child_key(at, name));
        lemma_flat_rows_below(items.last(), child_key(at, name));
        lemma_rebuild_flat_rows(items.last(), child_key(at, name));
        assert(!items_normal_form(shorter).dom().contains(name)) by {
            if items_normal_form(shorter).dom().contains(name) {
                lemma_items_normal_form_keys(shorter, name);
                let j = choose|j: int|
                    0 <= j < shorter.len() && name == #[trigger] decimal(j as nat);
                lemma_decimal_injective(j as nat, (items.len() - 1) as nat);
            }
        }
        lemma_rebuild_gains_child(before, rows, at, name);
    }
}

/// Taking in the rows of the entries of an object rebuilds the map from
/// their keys to the normal forms of their children.
pub proof fn lemma_rebuild_flat_entries(entries: Seq<(Vec<u8>, Document)>, at: Seq<u8>)
    requires
        faithful_entries(entries),
    ensures
        kids(rebuild_onto(null_tree(), flat_entries(entries, at), at)) == entries_normal_form(
            entries,
        ),
        entries.len() > 0 ==> rebuild_onto(null_tree(), flat_entries(entries, at), at) is Node,
    decreases entries,
{
    if entries.len() > 0 {
        let shorter = entries.drop_last();
        let name = entries.last().0@;
        let before = flat_entries(shorter, at);
        let rows = flat_rows(entries.last().1, child_key(at, name));
        lemma_rebuild_flat_entries(shorter, at);
        lemma_faithful_has_rows(entries.last().1, child_key(at, name));
        lemma_flat_rows_below(entries.last().1, child_key(at, name));
        lemma_rebuild_flat_rows(entries.last().1, child_key(at, name));
        assert(!entries_normal_form(shorter).dom().contains(name)) by {
            if entries_normal_form(shorter).dom().contains(name) {
                lemma_entries_normal_form_keys(shorter, name);
                let j = choose|j: int| 0 <= j < shorter.len() && name == (#[trigger] shorter[j]).0@;
                assert(shorter[j] == entries[j]);
            }
        }
        lemma_rebuild_gains_child(before, rows, at, name);
    }
}

/// Two paths that part somewhere: at some position both have a segment,
/// and the segments differ. Neither leads through the end of the other.
pub open spec fn apart(p: Seq<Seq<u8>>, q: Seq<Seq<u8>>) -> bool {
    exists|i: int| 0 <= i < p.len() && i < q.len() && #[trigger] p[i] != q[i]
}

/// Two keys whose paths below `prefix` part somewhere.
pub open spec fn apart_keys(prefix: Seq<u8>, a: Seq<u8>, b: Seq<u8>) -> bool {
    apart(segments_from(a, prefix.len() as int), segments_from(b, prefix.len() as int))
}

/// Rows whose paths below `prefix` part from each other, two by two.
pub open spec fn spread(rows: Seq<Entry>, prefix: Seq<u8>) -> bool {
    forall|i: int, j: int|
        0 <= i < j < rows.len() ==> apart_keys(
            prefix,
            (#[trigger] rows[i]).key,
            (#[trigger] rows[j]).key,
        )
}

/// The key lies below a child of the node at `at` that is not `name`.
pub open spec fn below_another(at: Seq<u8>, name: Seq<u8>, key: Seq<u8>) -> bool {
    exists|other: Seq<u8>|
        plain_segment(other) && other != name && #[trigger] child_key(at, other).is_prefix_of(key)
}

/// Paths part from each other whichever is named first.
pub proof fn lemma_apart_symmetric(p: Seq<Seq<u8>>, q: Seq<Seq<u8>>)
    requires
        apart(p, q),
    ensures
        apart(q, p),
{
    let i = choose|i: int| 0 <= i < p.len() && i < q.len() && #[trigger] p[i] != q[i];
    assert(0 <= i < q.len() && i < p.len() && q[i] != p[i]);
}

/// Putting leaves at two paths that part gives the same tree in either
/// order.
pub proof fn lemma_tree_insert_commutes(
    t: Tree,
    p: Seq<Seq<u8>>,
    a: Tree,
    q: Seq<Seq<u8>>,
    b: Tree,
)
    requires
        apart(p, q),
    ensures
        tree_insert(tree_insert(t, p, a), q, b) == tree_insert(tree_insert(t, q, b), p, a),
    decreases p.len(),
{
    let i = choose|i: int| 0 <= i < p.len() && i < q.len() && #[trigger] p[i] != q[i];
    let m = kids(t);
    let p_rest = p.drop_first();
    let q_rest = q.drop_first();
    if p[0] != q[0] {
        let x = tree_insert(kid(t, p[0]), p_rest, a);
        let y = tree_insert(kid(t, q[0]), q_rest, b);
        assert(tree_insert(t, p, a) == Tree::Node(m.insert(p[0], x)));
        assert(tree_insert(t, q, b) == Tree::Node(m.insert(q[0], y)));
        assert(kid(Tree::Node(m.insert(p[0], x)), q[0]) == kid(t, q[0]));
        assert(kid(Tree::Node(m.insert(q[0], y)), p[0]) == kid(t, p[0]));
        assert(m.insert(p[0], x).insert(q[0], y) =~= m.insert(q[0], y).insert(p[0], x));
    } else {
        let c = kid(t, p[0]);
        assert(apart(p_rest, q_rest)) by {
            assert(p_rest[i - 1] == p[i]);
            assert(q_rest[i - 1] == q[i]);
            assert(0 <= i - 1 < p_rest.len() && i - 1 < q_rest.len() && p_rest[i - 1] != q_rest[i
                - 1]);
        }
        lemma_tree_insert_commutes(c, p_rest, a, q_rest, b);
        let x = tree_insert(c, p_rest, a);
        let y = tree_insert(c, q_rest, b);
        assert(tree_insert(t, p, a) == Tree::Node(m.insert(p[0], x)));
        assert(tree_insert(t, q, b) == Tree::Node(m.insert(p[0], y)));
        assert(m.insert(p[0], x).insert(p[0], tree_insert(x, q_rest, b)) =~= m.insert(
            p[0],
            y,
        ).insert(p[0], tree_insert(y, p_rest, a)));
    }
}

/// Taking in two rows whose paths part gives the same tree in either
/// order.
pub proof fn lemma_absorb_commutes(t: Tree, prefix: Seq<u8>, first: Entry, second: Entry)
    requires
        apart_keys(prefix, first.key, second.key),
    ensures
        absorb(absorb(t, prefix, first), prefix, second) == absorb(
            absorb(t, prefix, second),
            prefix,
            first,
        ),
{
    if prefix.is_prefix_of(first.key) && prefix.is_prefix_of(second.key) {
        lemma_tree_insert_commutes(
            t,
            segments_from(first.key, prefix.len() as int),
            Tree::Leaf(first.value),
            segments_from(second.key, prefix.len() as int),
            Tree::Leaf(second.value),
        );
    }
}

/// A row that is put in among rows whose paths part from its own counts as
/// if it had come last.
pub proof fn lemma_rebuild_insert(
    t: Tree,
    rows: Seq<Entry>,
    at: int,
    row: Entry,
    prefix: Seq<u8>,
)
    requires
        0 <= at <= rows.len(),
        forall|j: int|
            at <= j < rows.len() ==> apart_keys(prefix, row.key, (#[trigger] rows[j]).key),
    ensures
        rebuild_onto(t, rows.insert(at, row), prefix) == absorb(
            rebuild_onto(t, rows, prefix),
            prefix,
            row,
        ),
    decreases rows.len(),
{
    let longer = rows.insert(at, row);
    if at == rows.len() {
        assert(longer.drop_last() =~= rows);
        assert(longer.last() == row);
    } else {
        let shorter = rows.drop_last();
        let last = rows.last();
        assert(longer.drop_last() =~= shorter.insert(at, row));
        assert(longer.last() == last);
        assert forall|j: int| at <= j < shorter.len() implies apart_keys(
            prefix,
            row.key,
            (#[trigger] shorter[j]).key,
        ) by {
            assert(shorter[j] == rows[j]);
        }
        lemma_rebuild_insert(t, shorter, at, row, prefix);
        assert(apart_keys(prefix, row.key, rows[rows.len() - 1].key));
        lemma_absorb_commutes(rebuild_onto(t, shorter, prefix), prefix, row, last);
    }
}

/// A key of a map after rows were written into it was in the map or is
/// the key of a row.
pub proof fn lemma_written_keys(map: Map<Seq<u8>, Scalar>, rows: Seq<Entry>, key: Seq<u8>)
    requires
        written(map, rows).dom().contains(key),
    ensures
        map.dom().contains(key) || exists|n: int|
            0 <= n < rows.len() && (#[trigger] rows[n]).key == key,
    decreases rows.len(),
{
    if rows.len() > 0 {
        if rows.last().key == key {
            assert(rows[rows.len() - 1].key == key);
        } else {
            let shorter = rows.drop_last();
            lemma_written_keys(map, shorter, key);
            if !map.dom().contains(key) {
                let n = choose|n: int| 0 <= n < shorter.len() && (#[trigger] shorter[n]).key == key;
                assert(rows[n].key == key);
            }
        }
    }
}

/// Keys with equal paths do not part, so rows that are spread have
/// different keys.
pub proof fn lemma_apart_keys_differ(prefix: Seq<u8>, a: Seq<u8>, b: Seq<u8>)
    requires
        apart_keys(prefix, a, b),
    ensures
        a != b,
{
}

/// The order in which a store holds rows does not matter to what is
/// rebuilt from them, as long as their paths part from each other: the
/// store rebuilds what the rows rebuild in the order they were written.
pub proof fn lemma_store_order_is_immaterial(rows: Seq<Entry>, prefix: Seq<u8>)
    requires
        spread(rows, prefix),
    ensures
        rebuild_onto(null_tree(), put_all(Seq::empty(), rows), prefix) == rebuild_onto(
            null_tree(),
            rows,
            prefix,
        ),
    decreases rows.len(),
{
    if rows.len() > 0 {
        let shorter = rows.drop_last();
        let last = rows.last();
        let none = Seq::<Entry>::empty();
        let held = put_all(none, shorter);
        assert(spread(shorter, prefix)) by {
            assert forall|i: int, j: int| 0 <= i < j < shorter.len() implies apart_keys(
                prefix,
                (#[trigger] shorter[i]).key,
                (#[trigger] shorter[j]).key,
            ) by {
                assert(shorter[i] == rows[i]);
                assert(shorter[j] == rows[j]);
            }
        }
        lemma_store_order_is_immaterial(shorter, prefix);
        lemma_put_all_ascending(none, shorter);
        lemma_put_all_written(none, shorter);
        // Every row that the store holds is one of the rows written, so its
        // path parts from the path of the new row.
        assert forall|j: int| 0 <= j < held.len() implies apart_keys(
            prefix,
            last.key,
            (#[trigger] held[j]).key,
        ) by {
            lemma_store_map_entry(held, j);
            lemma_written_keys(store_map(none), shorter, held[j].key);
            let n = choose|n: int|
                0 <= n < shorter.len() && (#[trigger] shorter[n]).key == held[j].key;
            assert(shorter[n] == rows[n]);
            assert(apart_keys(prefix, rows[n].key, rows[rows.len() - 1].key));
            lemma_apart_symmetric(
                segments_from(rows[n].key, prefix.len() as int),
                segments_from(last.key, prefix.len() as int),
            );
        }
        lemma_lower_bound(held, last.key);
        let at = lower_bound(held, last.key);
        if at < held.len() && held[at].key == last.key {
            assert(apart_keys(prefix, last.key, held[at].key));
            lemma_apart_keys_differ(prefix, last.key, held[at].key);
        }
        assert(put_all(none, rows) == held.insert(at, Entry { key: last.key, value: last.value }));
        assert((Entry { key: last.key, value: last.value }) == last);
        lemma_rebuild_insert(null_tree(), held, at, last, prefix);
    }
}

/// The rows of a new child keep the rows spread, when the rows before them
/// lie below other children.
pub proof fn lemma_spread_gains_child(
    before: Seq<Entry>,
    rows: Seq<Entry>,
    at: Seq<u8>,
    name: Seq<u8>,
)
    requires
        plain_segment(name),
        spread(before, at),
        spread(rows, child_key(at, name)),
        forall|i: int|
            0 <= i < rows.len() ==> child_key(at, name).is_prefix_of(#[trigger] rows[i].key),
        forall|i: int| 0 <= i < before.len() ==> below_another(at, name, #[trigger] before[i].key),
    ensures
        spread(before + rows, at),
{
    let all = before + rows;
    let start = at.len() as int;
    let deeper = child_key(at, name).len() as int;
    assert forall|i: int, j: int| 0 <= i < j < all.len() implies apart_keys(
        at,
        (#[trigger] all[i]).key,
        (#[trigger] all[j]).key,
    ) by {
        if j < before.len() {
            assert(all[i] == before[i] && all[j] == before[j]);
        } else if i >= before.len() {
            let a = rows[i - before.len()];
            let b = rows[j - before.len()];
            assert(all[i] == a && all[j] == b);
            assert(apart_keys(child_key(at, name), a.key, b.key));
            lemma_segments_descend(at, name, a.key);
            lemma_segments_descend(at, name, b.key);
            let p = segments_from(a.key, deeper);
            let q = segments_from(b.key, deeper);
            let w = choose|w: int| 0 <= w < p.len() && w < q.len() && #[trigger] p[w] != q[w];
            let long_p = segments_from(a.key, start);
            let long_q = segments_from(b.key, start);
            assert(long_p[w + 1] == p[w]);
            assert(long_q[w + 1] == q[w]);
            assert(0 <= w + 1 < long_p.len() && w + 1 < long_q.len() && long_p[w + 1] != long_q[w
                + 1]);
        } else {
            let a = before[i];
            let b = rows[j - before.len()];
            assert(all[i] == a && all[j] == b);
            assert(below_another(at, name, a.key));
            let other = choose|other: Seq<u8>|
                plain_segment(other) && other != name && #[trigger] child_key(
                    at,
                    other,
                ).is_prefix_of(a.key);
            lemma_segments_descend(at, other, a.key);
            lemma_segments_descend(at, name, b.key);
            let long_p = segments_from(a.key, start);
            let long_q = segments_from(b.key, start);
            assert(long_p[0] == other);
            assert(long_q[0] == name);
            assert(0 <= 0 < long_p.len() && 0 < long_q.len() && long_p[0] != long_q[0]);
        }
    }
}

/// The rows of a faithful document are spread.
pub proof fn lemma_flat_rows_spread(d: Document, at: Seq<u8>)
    requires
        faithful(d),
    ensures
        spread(flat_rows(d, at), at),
    decreases d,
{
    match d {
        Document::Leaf(_) => {},
        Document::Array(items) => {
            lemma_flat_items_spread(items@, at);
        },
        Document::Object(entries) => {
            lemma_flat_entries_spread(entries@, at);
        },
    }
}

/// The rows of the elements of an array are spread.
pub proof fn lemma_flat_items_spread(items: Seq<Document>, at: Seq<u8>)
    requires
        faithful_items(items),
    ensures
        spread(flat_items(items, at), at),
    decreases items,
{
    if items.len() > 0 {
        let shorter = items.drop_last();
        let name = decimal((items.len() - 1) as nat);
        let before = flat_items(shorter, at);
        let rows = flat_rows(items.last(), child_key(at, name));
        lemma_flat_items_spread(shorter, at);
        lemma_flat_rows_spread(items.last(), child_key(at, name));
        lemma_flat_rows_below(items.last(), child_key(at, name));
        lemma_flat_items_below(shorter, at);
        lemma_decimal_digits((items.len() - 1) as nat);
        assert forall|i: int| 0 <= i < before.len() implies below_another(
            at,
            name,
            #[trigger] before[i].key,
        ) by {
            let key = before[i].key;
            assert(below_an_item(shorter.len() as int, at, key));
            let j = choose|j: int|
                0 <= j < shorter.len() && #[trigger] child_key(at, decimal(j as nat)).is_prefix_of(
                    key,
                );
            lemma_decimal_digits(j as nat);
            if decimal(j as nat) == name {
                lemma_decimal_injective(j as nat, (items.len() - 1) as nat);
            }
            assert(plain_segment(decimal(j as nat)) && decimal(j as nat) != name && child_key(
                at,
                decimal(j as nat),
            ).is_prefix_of(key));
        }
        lemma_spread_gains_child(before, rows, at, name);
    }
}

/// The rows of the entries of an object are spread.
pub proof fn lemma_flat_entries_spread(entries: Seq<(Vec<u8>, Document)>, at: Seq<u8>)
    requires
        faithful_entries(entries),
    ensures
        spread(flat_entries(entries, at), at),
        forall|j: int| 0 <= j < entries.len() ==> plain_segment((#[trigger] entries[j]).0@),
    decreases entries,
{
    if entries.len() > 0 {
        let shorter = entries.drop_last();
        let name = entries.last().0@;
        let before = flat_entries(shorter, at);
        let rows = flat_rows(entries.last().1, child_key(at, name));
        lemma_flat_entries_spread(shorter, at);
        lemma_flat_rows_spread(entries.last().1, child_key(at, name));
        lemma_flat_rows_below(entries.last().1, child_key(at, name));
        lemma_flat_entries_below(shorter, at);
        assert forall|j: int| 0 <= j < entries.len() implies plain_segment(
            (#[trigger] entries[j]).0@,
        ) by {
            if j < shorter.len() {
                assert(shorter[j] == entries[j]);
            }
        }
        assert forall|i: int| 0 <= i < before.len() implies below_another(
            at,
            name,
            #[trigger] before[i].key,
        ) by {
            let key = before[i].key;
            assert(below_an_entry(shorter, at, key));
            let j = choose|j: int|
                0 <= j < shorter.len() && child_key(at, (#[trigger] shorter[j]).0@).is_prefix_of(
                    key,
                );
            assert(shorter[j] == entries[j]);
            let other = entries[j].0@;
            assert(plain_segment(other) && other != name && child_key(at, other).is_prefix_of(key));
        }
        lemma_spread_gains_child(before, rows, at, name);
    }
}

} // verus!
