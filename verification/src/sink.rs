//! Where the leaves of a traversal go: nowhere, to the console, or into a
//! store.

use crate::codec::{console_line, encode, json_text, line_text};
use crate::path::segments_view;
use crate::store::{put_entry, Entry, Store};
use crate::value::Scalar;
use vstd::prelude::*;

verus! {

/// A consumer of flattened leaves.
pub enum Sink {
    /// Drops every leaf. For reading a document without keeping anything.
    Discard,
    /// Keeps one line per leaf, in the order of the calls.
    Console { lines: Vec<Vec<u8>> },
    /// Writes every leaf into the store, at its path.
    Store { store: Store },
}

/// What a sink has taken in.
pub ghost enum SinkView {
    Discard,
    Console { lines: Seq<Seq<u8>> },
    Store { entries: Seq<Entry> },
}

impl View for Sink {
    type V = SinkView;

    open spec fn view(&self) -> SinkView {
        match *self {
            Sink::Discard => SinkView::Discard,
            Sink::Console { lines } => SinkView::Console { lines: segments_view(lines@) },
            Sink::Store { store } => SinkView::Store { entries: store@ },
        }
    }
}

/// The sink after one leaf: unchanged if it discards, one more line on the
/// console, or the store after a point write at the path.
pub open spec fn accepted(sink: SinkView, path: Seq<u8>, value: Scalar) -> SinkView {
    match sink {
        SinkView::Discard => SinkView::Discard,
        SinkView::Console { lines } => SinkView::Console {
            lines: lines.push(line_text(path, json_text(value))),
        },
        SinkView::Store { entries } => SinkView::Store { entries: put_entry(entries, path, value) },
    }
}

/// The sink after the leaves of `rows`, one after the other.
pub open spec fn accepted_all(sink: SinkView, rows: Seq<Entry>) -> SinkView
    decreases rows.len(),
{
    if rows.len() == 0 {
        sink
    } else {
        accepted(accepted_all(sink, rows.drop_last()), rows.last().key, rows.last().value)
    }
}

/// Taking in two runs of leaves one after the other is taking in their
/// concatenation.
pub proof fn lemma_accepted_all_concat(sink: SinkView, first: Seq<Entry>, second: Seq<Entry>)
    ensures
        accepted_all(sink, first + second) == accepted_all(accepted_all(sink, first), second),
    decreases second.len(),
{
    if second.len() == 0 {
        assert(first + second =~= first);
    } else {
        lemma_accepted_all_concat(sink, first, second.drop_last());
        assert((first + second).drop_last() =~= first + second.drop_last());
        assert((first + second).last() == second.last());
    }
}

impl Sink {
    /// A sink that drops every leaf.
    pub fn discard() -> (sink: Sink)
        ensures
            sink@ == SinkView::Discard,
    {
        Sink::Discard
    }

    /// A console sink without lines.
    pub fn console() -> (sink: Sink)
        ensures
            sink@ == (SinkView::Console { lines: Seq::empty() }),
    {
        let sink = Sink::Console { lines: Vec::new() };
        assert(sink@->Console_lines =~= Seq::<Seq<u8>>::empty());
        sink
    }

    /// A sink that writes into `store`.
    pub fn store(store: Store) -> (sink: Sink)
        ensures
            sink@ == (SinkView::Store { entries: store@ }),
    {
        Sink::Store { store }
    }

    /// Takes in one leaf: drops it, keeps its line, or writes it into the
    /// store at its path.
    pub fn accept(&mut self, path: &[u8], value: &Scalar)
        ensures
            final(self)@ == accepted(old(self)@, path@, *value),
    {
        match self {
            Sink::Discard => {},
            Sink::Console { lines } => {
                let text = encode(value);
                let line = console_line(path, text.as_slice());
                let ghost before = segments_view(lines@);
                lines.push(line);
                assert(segments_view(lines@) =~= before.push(line_text(path@, json_text(*value))));
            },
            Sink::Store { store } => {
                store.put(path, value.duplicate());
            },
        }
    }
}

} // verus!
