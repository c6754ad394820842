//! Rows, and an ordered store of them: keys ascending byte by byte, one row
//! per key, a write to a key that is there replacing its value.

use crate::path::{
    copy_range, key_le, key_less, key_lt, lemma_key_lt_asymmetric, lemma_key_lt_irreflexive,
    lemma_key_lt_total,
    lemma_key_lt_transitive, same_bytes,
};
use crate::value::Scalar;
use vstd::prelude::*;

verus! {

/// One leaf of a flattened document: the encoded path and the scalar found
/// there.
#[derive(Debug, PartialEq)]
pub struct Row {
    pub key: Vec<u8>,
    pub value: Scalar,
}

/// A row as contracts speak of it.
pub ghost struct Entry {
    pub key: Seq<u8>,
    pub value: Scalar,
}

impl View for Row {
    type V = Entry;

    open spec fn view(&self) -> Entry {
        Entry { key: self.key@, value: self.value }
    }
}

/// The entries that a list of rows holds.
pub open spec fn entries_of(rows: Seq<Row>) -> Seq<Entry> {
    Seq::new(rows.len(), |i: int| rows[i]@)
}

/// Keys strictly ascending: sorted, and no key twice.
pub open spec fn ascending(entries: Seq<Entry>) -> bool {
    forall|i: int, j: int|
        0 <= i < j < entries.len() ==> key_lt(#[trigger] entries[i].key, #[trigger] entries[j].key)
}

/// Where a seek for `target` lands: the position of the first entry whose
/// key does not sort before `target`, or the length if every key does.
pub open spec fn lower_bound(entries: Seq<Entry>, target: Seq<u8>) -> int
    decreases entries.len(),
{
    if entries.len() == 0 || key_lt(entries.last().key, target) {
        entries.len() as int
    } else {
        lower_bound(entries.drop_last(), target)
    }
}

/// The store after a point write: the value at `key` replaced if the key is
/// there, the row put in at its place in the order if not.
pub open spec fn put_entry(entries: Seq<Entry>, key: Seq<u8>, value: Scalar) -> Seq<Entry> {
    let i = lower_bound(entries, key);
    if i < entries.len() && entries[i].key == key {
        entries.update(i, Entry { key, value })
    } else {
        entries.insert(i, Entry { key, value })
    }
}

/// The store after writing `rows` one after the other.
pub open spec fn put_all(entries: Seq<Entry>, rows: Seq<Entry>) -> Seq<Entry>
    decreases rows.len(),
{
    if rows.len() == 0 {
        entries
    } else {
        put_entry(put_all(entries, rows.drop_last()), rows.last().key, rows.last().value)
    }
}

/// What `lower_bound` returns in an ascending store: every key before it
/// sorts before the target, and no key from it on does.
pub proof fn lemma_lower_bound(entries: Seq<Entry>, target: Seq<u8>)
    requires
        ascending(entries),
    ensures
        0 <= lower_bound(entries, target) <= entries.len(),
        forall|j: int|
            0 <= j < lower_bound(entries, target) ==> key_lt(#[trigger] entries[j].key, target),
        forall|j: int|
            lower_bound(entries, target) <= j < entries.len() ==> key_le(
                target,
                #[trigger] entries[j].key,
            ),
    decreases entries.len(),
{
    if entries.len() == 0 {
    } else if key_lt(entries.last().key, target) {
        assert forall|j: int| 0 <= j < entries.len() implies key_lt(
            #[trigger] entries[j].key,
            target,
        ) by {
            if j < entries.len() - 1 {
                lemma_key_lt_transitive(entries[j].key, entries.last().key, target);
            }
        }
    } else {
        let shorter = entries.drop_last();
        assert(ascending(shorter)) by {
            assert forall|i: int, j: int| 0 <= i < j < shorter.len() implies key_lt(
                #[trigger] shorter[i].key,
                #[trigger] shorter[j].key,
            ) by {
                assert(shorter[i] == entries[i]);
                assert(shorter[j] == entries[j]);
            }
        }
        lemma_lower_bound(shorter, target);
        let lb = lower_bound(shorter, target);
        assert forall|j: int| 0 <= j < lb implies key_lt(#[trigger] entries[j].key, target) by {
            assert(shorter[j] == entries[j]);
        }
        assert forall|j: int| lb <= j < entries.len() implies key_le(
            target,
            #[trigger] entries[j].key,
        ) by {
            if j < entries.len() - 1 {
                assert(shorter[j] == entries[j]);
            }
        }
    }
}

/// A position that parts the keys below the target from the others is where
/// the seek lands.
pub proof fn lemma_lower_bound_is(entries: Seq<Entry>, target: Seq<u8>, at: int)
    requires
        ascending(entries),
        0 <= at <= entries.len(),
        forall|j: int| 0 <= j < at ==> key_lt(#[trigger] entries[j].key, target),
        forall|j: int| at <= j < entries.len() ==> key_le(target, #[trigger] entries[j].key),
    ensures
        lower_bound(entries, target) == at,
{
    lemma_lower_bound(entries, target);
    let lb = lower_bound(entries, target);
    if lb < at {
        assert(key_lt(entries[lb].key, target));
        assert(key_le(target, entries[lb].key));
    } else if at < lb {
        assert(key_lt(entries[at].key, target));
        assert(key_le(target, entries[at].key));
    }
}

/// A point write keeps the keys ascending.
pub proof fn lemma_put_entry_ascending(entries: Seq<Entry>, key: Seq<u8>, value: Scalar)
    requires
        ascending(entries),
    ensures
        ascending(put_entry(entries, key, value)),
{
    lemma_lower_bound(entries, key);
    let at = lower_bound(entries, key);
    let after = put_entry(entries, key, value);
    if at < entries.len() && entries[at].key == key {
        assert forall|i: int, j: int| 0 <= i < j < after.len() implies key_lt(
            #[trigger] after[i].key,
            #[trigger] after[j].key,
        ) by {
            assert(after[i].key == entries[i].key);
            assert(after[j].key == entries[j].key);
        }
    } else {
        assert forall|i: int, j: int| 0 <= i < j < after.len() implies key_lt(
            #[trigger] after[i].key,
            #[trigger] after[j].key,
        ) by {
            if j < at {
                assert(after[i] == entries[i] && after[j] == entries[j]);
            } else if j == at {
                assert(after[i] == entries[i]);
            } else if i < at {
                assert(after[i] == entries[i] && after[j] == entries[j - 1]);
            } else if i == at {
                assert(after[j] == entries[j - 1]);
                lemma_key_lt_total(key, entries[j - 1].key);
                if j - 1 > at {
                    assert(key_le(key, entries[at].key));
                    lemma_key_lt_total(key, entries[at].key);
                    lemma_key_lt_transitive(key, entries[at].key, entries[j - 1].key);
                }
            } else {
                assert(after[i] == entries[i - 1] && after[j] == entries[j - 1]);
            }
        }
    }
}

/// Writing rows one after the other keeps the keys ascending.
pub proof fn lemma_put_all_ascending(entries: Seq<Entry>, rows: Seq<Entry>)
    requires
        ascending(entries),
    ensures
        ascending(put_all(entries, rows)),
    decreases rows.len(),
{
    if rows.len() > 0 {
        lemma_put_all_ascending(entries, rows.drop_last());
        lemma_put_entry_ascending(
            put_all(entries, rows.drop_last()),
            rows.last().key,
            rows.last().value,
        );
    }
}

/// The store as a map from keys to values.
pub open spec fn store_map(entries: Seq<Entry>) -> Map<Seq<u8>, Scalar>
    decreases entries.len(),
{
    if entries.len() == 0 {
        Map::empty()
    } else {
        store_map(entries.drop_last()).insert(entries.last().key, entries.last().value)
    }
}

/// Dropping the last entry of an ascending store leaves an ascending store.
pub proof fn lemma_ascending_drop_last(entries: Seq<Entry>)
    requires
        ascending(entries),
        entries.len() > 0,
    ensures
        ascending(entries.drop_last()),
{
    let shorter = entries.drop_last();
    assert forall|i: int, j: int| 0 <= i < j < shorter.len() implies key_lt(
        #[trigger] shorter[i].key,
        #[trigger] shorter[j].key,
    ) by {
        assert(shorter[i] == entries[i]);
        assert(shorter[j] == entries[j]);
    }
}

/// Every key of the map is the key of an entry.
pub proof fn lemma_store_map_key(entries: Seq<Entry>, key: Seq<u8>)
    requires
        store_map(entries).dom().contains(key),
    ensures
        exists|i: int| 0 <= i < entries.len() && (#[trigger] entries[i]).key == key,
    decreases entries.len(),
{
    if entries.len() > 0 {
        if entries.last().key == key {
            assert(entries[entries.len() - 1].key == key);
        } else {
            let shorter = entries.drop_last();
            lemma_store_map_key(shorter, key);
            let i = choose|i: int| 0 <= i < shorter.len() && (#[trigger] shorter[i]).key == key;
            assert(entries[i].key == key);
        }
    }
}

/// In an ascending store the map sends the key of every entry to its value.
pub proof fn lemma_store_map_entry(entries: Seq<Entry>, at: int)
    requires
        ascending(entries),
        0 <= at < entries.len(),
    ensures
        store_map(entries).dom().contains(entries[at].key),
        store_map(entries)[entries[at].key] == entries[at].value,
    decreases entries.len(),
{
    if at < entries.len() - 1 {
        lemma_ascending_drop_last(entries);
        lemma_store_map_entry(entries.drop_last(), at);
        lemma_key_lt_asymmetric(entries[at].key, entries[entries.len() - 1].key);
    }
}

/// A point write is an insertion into the map.
pub proof fn lemma_store_map_put(entries: Seq<Entry>, key: Seq<u8>, value: Scalar)
    requires
        ascending(entries),
    ensures
        store_map(put_entry(entries, key, value)) == store_map(entries).insert(key, value),
    decreases entries.len(),
{
    let after = put_entry(entries, key, value);
    let entry = Entry { key, value };
    lemma_lower_bound(entries, key);
    let at = lower_bound(entries, key);
    if at == entries.len() {
        assert(after =~= entries.push(entry));
        assert(after.drop_last() =~= entries);
    } else {
        let shorter = entries.drop_last();
        let last = entries.last();
        lemma_ascending_drop_last(entries);
        if last.key == key {
            if at < entries.len() - 1 {
                assert(key_le(key, entries[at].key));
                assert(key_lt(entries[at].key, entries[entries.len() - 1].key));
            }
            assert(after =~= entries.update(entries.len() - 1, entry));
            assert(after.drop_last() =~= shorter);
            assert(store_map(after) =~= store_map(entries).insert(key, value));
        } else {
            assert(lower_bound(shorter, key) == at);
            lemma_store_map_put(shorter, key, value);
            lemma_lower_bound(shorter, key);
            if at < shorter.len() && shorter[at].key == key {
                assert(entries[at].key == key);
                assert(after =~= put_entry(shorter, key, value).push(last));
            } else {
                if at < entries.len() && entries[at].key == key {
                    assert(shorter[at] == entries[at]);
                }
                assert(after =~= put_entry(shorter, key, value).push(last));
            }
            assert(after.drop_last() =~= put_entry(shorter, key, value));
            assert(after.last() == last);
            assert(store_map(after) =~= store_map(entries).insert(key, value));
        }
    }
}

/// An ascending store is known by its map: two of them with the same map
/// hold the same rows.
pub proof fn lemma_store_map_decides(a: Seq<Entry>, b: Seq<Entry>)
    requires
        ascending(a),
        ascending(b),
        store_map(a) == store_map(b),
    ensures
        a == b,
    decreases a.len(),
{
    if a.len() == 0 {
        if b.len() > 0 {
            assert(store_map(b).dom().contains(b.last().key));
        }
        assert(a =~= b);
    } else {
        assert(store_map(a).dom().contains(a.last().key));
        if b.len() == 0 {
            assert(false);
        }
        assert(store_map(b).dom().contains(b.last().key));
        let ka = a.last().key;
        let kb = b.last().key;
        lemma_store_map_key(b, ka);
        lemma_store_map_key(a, kb);
        let j = choose|j: int| 0 <= j < b.len() && (#[trigger] b[j]).key == ka;
        let i = choose|i: int| 0 <= i < a.len() && (#[trigger] a[i]).key == kb;
        if i < a.len() - 1 && j < b.len() - 1 {
            assert(key_lt(a[i].key, a[a.len() - 1].key));
            assert(key_lt(b[j].key, b[b.len() - 1].key));
            lemma_key_lt_asymmetric(ka, kb);
        }
        assert(ka == kb);
        lemma_ascending_drop_last(a);
        lemma_ascending_drop_last(b);
        let shorter_a = a.drop_last();
        let shorter_b = b.drop_last();
        assert(!store_map(shorter_a).dom().contains(ka)) by {
            if store_map(shorter_a).dom().contains(ka) {
                lemma_store_map_key(shorter_a, ka);
                let n = choose|n: int|
                    0 <= n < shorter_a.len() && (#[trigger] shorter_a[n]).key == ka;
                assert(shorter_a[n] == a[n]);
                assert(key_lt(a[n].key, a[a.len() - 1].key));
                lemma_key_lt_irreflexive(ka);
            }
        }
        assert(!store_map(shorter_b).dom().contains(kb)) by {
            if store_map(shorter_b).dom().contains(kb) {
                lemma_store_map_key(shorter_b, kb);
                let n = choose|n: int|
                    0 <= n < shorter_b.len() && (#[trigger] shorter_b[n]).key == kb;
                assert(shorter_b[n] == b[n]);
                assert(key_lt(b[n].key, b[b.len() - 1].key));
                lemma_key_lt_irreflexive(kb);
            }
        }
        assert(store_map(shorter_a) =~= store_map(a).remove(ka));
        assert(store_map(shorter_b) =~= store_map(b).remove(kb));
        lemma_store_map_decides(shorter_a, shorter_b);
        assert(store_map(a)[ka] == a.last().value);
        assert(store_map(b)[kb] == b.last().value);
        assert(a.last() == b.last());
        assert(a =~= shorter_a.push(a.last()));
        assert(b =~= shorter_b.push(b.last()));
    }
}

/// An ordered store of rows, held in memory. It keeps the scalars
/// themselves, not the bytes that a byte store would hold for them.
pub struct Store {
    rows: Vec<Row>,
}

impl View for Store {
    type V = Seq<Entry>;

    closed spec fn view(&self) -> Seq<Entry> {
        entries_of(self.rows@)
    }
}

impl Store {
    /// What holds of every store: its keys ascend strictly.
    #[verifier::type_invariant]
    pub open spec fn sorted(self) -> bool {
        ascending(self@)
    }

    /// A store without rows.
    pub fn new() -> (store: Store)
        ensures
            store@ == Seq::<Entry>::empty(),
    {
        let store = Store { rows: Vec::new() };
        assert(store@ =~= Seq::<Entry>::empty());
        store
    }

    /// The number of rows.
    pub fn len(&self) -> (n: usize)
        ensures
            n == self@.len(),
            ascending(self@),
    {
        proof {
            use_type_invariant(self);
        }
        self.rows.len()
    }

    /// The row at position `i` of the key order.
    pub fn row(&self, i: usize) -> (row: &Row)
        requires
            i < self@.len(),
        ensures
            row@ == self@[i as int],
    {
        &self.rows[i]
    }

    /// The position of the first row whose key does not sort before
    /// `target`; the number of rows if there is none.
    pub fn seek(&self, target: &[u8]) -> (at: usize)
        ensures
            at == lower_bound(self@, target@),
            at <= self@.len(),
            ascending(self@),
    {
        proof {
            use_type_invariant(self);
        }
        let mut low: usize = 0;
        let mut high: usize = self.rows.len();
        while low < high
            invariant
                low <= high <= self.rows.len(),
                ascending(self@),
                self@ == entries_of(self.rows@),
                forall|j: int| 0 <= j < low ==> key_lt(#[trigger] self@[j].key, target@),
                forall|j: int| high <= j < self@.len() ==> key_le(target@, #[trigger] self@[j].key),
            decreases high - low,
        {
            let mid = low + (high - low) / 2;
            if key_less(self.rows[mid].key.as_slice(), target) {
                assert forall|j: int| 0 <= j < mid + 1 implies key_lt(
                    #[trigger] self@[j].key,
                    target@,
                ) by {
                    if j < mid {
                        lemma_key_lt_transitive(self@[j].key, self@[mid as int].key, target@);
                    }
                }
                low = mid + 1;
            } else {
                assert forall|j: int| mid <= j < self@.len() implies key_le(
                    target@,
                    #[trigger] self@[j].key,
                ) by {
                    if j > mid && key_lt(self@[j].key, target@) {
                        lemma_key_lt_transitive(self@[mid as int].key, self@[j].key, target@);
                    }
                }
                high = mid;
            }
        }
        proof {
            lemma_lower_bound_is(self@, target@, low as int);
        }
        low
    }

    /// A point write: puts `value` at `key`, in place of the value that was
    /// there if the key was.
    pub fn put(&mut self, key: &[u8], value: Scalar)
        ensures
            final(self)@ == put_entry(old(self)@, key@, value),
    {
        let at = self.seek(key);
        let row = Row { key: copy_range(key, 0, key.len()), value };
        assert(key@.subrange(0, key@.len() as int) =~= key@);
        let ghost before = self@;
        proof {
            lemma_put_entry_ascending(before, key@, value);
        }
        let mut rows: Vec<Row> = Vec::new();
        assert(entries_of(rows@) =~= Seq::<Entry>::empty());
        core::mem::swap(&mut self.rows, &mut rows);
        if at < rows.len() && same_bytes(rows[at].key.as_slice(), key) {
            assert(before[at as int].key == key@);
            rows.set(at, row);
        } else {
            rows.insert(at, row);
        }
        assert(entries_of(rows@) =~= put_entry(before, key@, value));
        core::mem::swap(&mut self.rows, &mut rows);
    }
}

} // verus!
