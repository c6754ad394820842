//! Listing the immediate children of a path by seeking from child to child,
//! so that the rows below a child are never visited.

use crate::path::{
    copy_range, find_run_end, first_segment, key_le, key_lt, lemma_mismatch_is,
    lemma_run_end_bounds, run_end, segments_view, starts_with,
    AFTER_DELIMITER, DELIMITER,
};
use crate::laws::{
    holds_headless, holds_key, law_listing_fails_exactly, law_listing_stops_at_the_prefix,
    lemma_scan_lists, lists_children, proper_children,
};
use crate::store::{ascending, lemma_lower_bound, lower_bound, Entry, Store};
use vstd::prelude::*;

verus! {

/// Why a listing was refused.
#[derive(Debug, PartialEq, Eq, Clone, Copy)]
pub enum ListError {
    /// The prefix is not empty and does not end in the delimiter.
    UnterminatedPrefix,
    /// A key under the prefix goes on with a delimiter, so the segment that
    /// follows the prefix is empty.
    EmptySegment,
}

/// What a listing does after a seek.
#[derive(Debug, PartialEq)]
pub enum ScanStep {
    /// There are no more children.
    Done,
    /// A child was found; the next seek goes to `next_target`.
    Child { name: Vec<u8>, next_target: Vec<u8> },
}

/// A prefix that names a whole path: empty, or ending in the delimiter.
pub open spec fn terminated(prefix: Seq<u8>) -> bool {
    prefix.len() == 0 || prefix.last() == DELIMITER
}

/// The seek target that lies beyond every key of the child `segment`: the
/// child's own key with the delimiter replaced by the byte after it.
pub open spec fn bookend(prefix: Seq<u8>, segment: Seq<u8>) -> Seq<u8> {
    prefix + segment + seq![AFTER_DELIMITER]
}

/// A key that lies under `prefix` and goes on after it.
pub open spec fn below(prefix: Seq<u8>, key: Seq<u8>) -> bool {
    prefix.is_prefix_of(key) && key.len() > prefix.len()
}

/// The names with `rest` after them, if there is a rest.
pub open spec fn followed_by(names: Seq<Seq<u8>>, rest: Option<Seq<Seq<u8>>>) -> Option<
    Seq<Seq<u8>>,
> {
    match rest {
        Some(more) => Some(names + more),
        None => None,
    }
}

/// The children that the scan finds from position `from` on, when the last
/// seek went to `target`. Rows below the target are passed over. The first
/// row at or beyond it is where the seek lands: if it does not lie below the
/// prefix the scan ends; if nothing stands between the prefix and the next
/// delimiter there is no answer; otherwise the segment after the prefix is
/// a child, and the scan goes on from that child's bookend.
pub open spec fn scan_children(
    entries: Seq<Entry>,
    prefix: Seq<u8>,
    from: int,
    target: Seq<u8>,
) -> Option<Seq<Seq<u8>>>
    decreases entries.len() - from,
{
    if from < 0 || from >= entries.len() {
        Some(Seq::empty())
    } else if key_lt(entries[from].key, target) {
        scan_children(entries, prefix, from + 1, target)
    } else if !below(prefix, entries[from].key) {
        Some(Seq::empty())
    } else {
        let segment = first_segment(entries[from].key, prefix.len() as int);
        if segment.len() == 0 {
            None
        } else {
            followed_by(
                seq![segment],
                scan_children(entries, prefix, from + 1, bookend(prefix, segment)),
            )
        }
    }
}

/// The immediate children of `prefix`, as the skip-scan lists them; `None`
/// where it meets an empty segment.
pub open spec fn children(entries: Seq<Entry>, prefix: Seq<u8>) -> Option<Seq<Seq<u8>>> {
    scan_children(entries, prefix, 0, prefix)
}

/// The rows between a position and the place where the seek lands are
/// passed over.
pub proof fn lemma_scan_passes_over(
    entries: Seq<Entry>,
    prefix: Seq<u8>,
    from: int,
    target: Seq<u8>,
)
    requires
        ascending(entries),
        0 <= from <= lower_bound(entries, target),
    ensures
        scan_children(entries, prefix, from, target) == scan_children(
            entries,
            prefix,
            lower_bound(entries, target),
            target,
        ),
    decreases lower_bound(entries, target) - from,
{
    lemma_lower_bound(entries, target);
    if from < lower_bound(entries, target) {
        assert(key_lt(entries[from].key, target));
        lemma_scan_passes_over(entries, prefix, from + 1, target);
    }
}

/// Decides what follows a seek. `landed` is the key that the seek found, if
/// it found one. The listing is done when there is no key, when the key
/// does not start with the prefix, or when it is the prefix itself.
/// Otherwise the bytes after the prefix, up to the next delimiter, name a
/// child, and the next seek goes to the child's bookend; if there are no
/// such bytes the listing fails.
pub fn scan_step(prefix: &[u8], landed: Option<&[u8]>) -> (r: Result<ScanStep, ListError>)
    ensures
        landed is None ==> r == Ok::<ScanStep, ListError>(ScanStep::Done),
        landed matches Some(key) ==> {
            let segment = first_segment(key@, prefix@.len() as int);
            if !below(prefix@, key@) {
                r == Ok::<ScanStep, ListError>(ScanStep::Done)
            } else if segment.len() == 0 {
                r == Err::<ScanStep, ListError>(ListError::EmptySegment)
            } else {
                &&& r matches Ok(ScanStep::Child { name, next_target })
                &&& name@ == segment
                &&& next_target@ == bookend(prefix@, segment)
            }
        },
{
    let key = match landed {
        None => {
            return Ok(ScanStep::Done);
        },
        Some(key) => key,
    };
    if !starts_with(key, prefix) || key.len() <= prefix.len() {
        return Ok(ScanStep::Done);
    }
    let end = find_run_end(key, prefix.len());
    if end == prefix.len() {
        return Err(ListError::EmptySegment);
    }
    let name = copy_range(key, prefix.len(), end);
    let mut next_target = copy_range(prefix, 0, prefix.len());
    assert(prefix@.subrange(0, prefix@.len() as int) =~= prefix@);
    let mut i: usize = 0;
    while i < name.len()
        invariant
            i <= name.len(),
            next_target@ == prefix@ + name@.subrange(0, i as int),
        decreases name.len() - i,
    {
        next_target.push(name[i]);
        i += 1;
        assert(next_target@ =~= prefix@ + name@.subrange(0, i as int));
    }
    assert(name@.subrange(0, name@.len() as int) =~= name@);
    next_target.push(AFTER_DELIMITER);
    Ok(ScanStep::Child { name, next_target })
}

/// The first seek target of a listing: the prefix itself. A prefix that is
/// neither empty nor ends in the delimiter is refused.
pub fn scan_start(prefix: &[u8]) -> (r: Result<Vec<u8>, ListError>)
    ensures
        terminated(prefix@) ==> (r matches Ok(target) && target@ == prefix@),
        !terminated(prefix@) ==> r == Err::<Vec<u8>, ListError>(ListError::UnterminatedPrefix),
{
    if prefix.len() > 0 && prefix[prefix.len() - 1] != DELIMITER {
        return Err(ListError::UnterminatedPrefix);
    }
    let target = copy_range(prefix, 0, prefix.len());
    assert(prefix@.subrange(0, prefix@.len() as int) =~= prefix@);
    Ok(target)
}

/// The immediate children of `prefix` in `store`: for each, the segment
/// that follows the prefix, in the order of the store. One seek is made per
/// child, and one more to find the end.
///
/// A prefix that is not empty and does not end in the delimiter is refused
/// before any seek. Otherwise the listing fails exactly if the store does
/// not hold the prefix itself as a key and some key goes on with a
/// delimiter right after the prefix.
///
/// Where every key below the prefix has a first segment that is not empty
/// and ends at a delimiter, and the prefix itself is no key, the list holds
/// the first segment of every key below the prefix, each once, and nothing
/// else.
pub fn list_children(store: &Store, prefix: &[u8]) -> (r: Result<Vec<Vec<u8>>, ListError>)
    ensures
        !terminated(prefix@) ==> r == Err::<Vec<Vec<u8>>, ListError>(
            ListError::UnterminatedPrefix,
        ),
        terminated(prefix@) ==> match children(store@, prefix@) {
            Some(names) => (r matches Ok(found) && segments_view(found@) == names),
            None => r == Err::<Vec<Vec<u8>>, ListError>(ListError::EmptySegment),
        },
        r == Err::<Vec<Vec<u8>>, ListError>(ListError::EmptySegment) <==> terminated(prefix@)
            && !holds_key(store@, prefix@) && holds_headless(store@, prefix@, 0),
        terminated(prefix@) && proper_children(store@, prefix@) ==> (r matches Ok(found)
            && lists_children(store@, prefix@, 0, prefix@, segments_view(found@))),
{
    let count = store.len();
    proof {
        if holds_key(store@, prefix@) {
            law_listing_stops_at_the_prefix(store@, prefix@);
        } else {
            law_listing_fails_exactly(store@, prefix@);
        }
        if proper_children(store@, prefix@) {
            lemma_mismatch_is(prefix@, prefix@, 0, prefix@.len() as int);
            lemma_scan_lists(store@, prefix@, 0, prefix@);
        }
    }
    let mut target = match scan_start(prefix) {
        Ok(target) => target,
        Err(e) => {
            return Err(e);
        },
    };
    let mut names: Vec<Vec<u8>> = Vec::new();
    let ghost mut from: int = 0;
    proof {
        lemma_lower_bound(store@, target@);
    }
    assert(segments_view(names@) =~= Seq::<Seq<u8>>::empty());
    assert(followed_by(segments_view(names@), scan_children(store@, prefix@, 0, prefix@))
        == children(store@, prefix@)) by {
        match scan_children(store@, prefix@, 0, prefix@) {
            Some(more) => {
                assert(Seq::<Seq<u8>>::empty() + more =~= more);
            },
            None => {},
        }
    }
    loop
        invariant
            count == store@.len(),
            ascending(store@),
            terminated(prefix@),
            0 <= from <= count,
            from <= lower_bound(store@, target@),
            followed_by(segments_view(names@), scan_children(store@, prefix@, from, target@))
                == children(store@, prefix@),
            children(store@, prefix@) is None <==> !holds_key(store@, prefix@) && holds_headless(
                store@,
                prefix@,
                0,
            ),
            proper_children(store@, prefix@) ==> children(store@, prefix@) is Some
                && lists_children(store@, prefix@, 0, prefix@, children(store@, prefix@)->0),
        ensures
            children(store@, prefix@) == Some(segments_view(names@)),
        decreases count - from,
    {
        let at = store.seek(target.as_slice());
        proof {
            lemma_lower_bound(store@, target@);
            lemma_scan_passes_over(store@, prefix@, from, target@);
        }
        let landed: Option<&[u8]> = if at < count {
            Some(store.row(at).key.as_slice())
        } else {
            None
        };
        let ghost before = segments_view(names@);
        match scan_step(prefix, landed) {
            Err(e) => {
                return Err(e);
            },
            Ok(ScanStep::Done) => {
                assert(scan_children(store@, prefix@, at as int, target@) == Some(
                    Seq::<Seq<u8>>::empty(),
                ));
                assert(before + Seq::<Seq<u8>>::empty() =~= before);
                break ;
            },
            Ok(ScanStep::Child { name, next_target }) => {
                let ghost segment = name@;
                let ghost key = store@[at as int].key;
                proof {
                    lemma_bookend_beyond(prefix@, key);
                    lemma_lower_bound(store@, next_target@);
                    if lower_bound(store@, next_target@) <= at {
                        assert(key_le(next_target@, key));
                    }
                    match scan_children(store@, prefix@, at as int + 1, next_target@) {
                        Some(more) => {
                            assert(before.push(segment) + more =~= before + (seq![segment] + more));
                        },
                        None => {},
                    }
                }
                names.push(name);
                assert(segments_view(names@) =~= before.push(segment));
                target = next_target;
                proof {
                    from = at as int + 1;
                }
            },
        }
    }
    Ok(names)
}

/// A key below the prefix sorts before the bookend of its own first
/// segment.
pub proof fn lemma_bookend_beyond(prefix: Seq<u8>, key: Seq<u8>)
    requires
        below(prefix, key),
    ensures
        key_lt(key, bookend(prefix, first_segment(key, prefix.len() as int))),
{
    let start = prefix.len() as int;
    lemma_run_end_bounds(key, start);
    let end = run_end(key, start);
    let target = bookend(prefix, first_segment(key, start));
    assert forall|j: int| 0 <= j < end implies key[j] == target[j] by {
        if j < start {
            assert(key.subrange(0, start)[j] == prefix[j]);
        }
    }
    lemma_mismatch_is(key, target, 0, end);
}

} // verus!
