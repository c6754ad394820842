//! Encoded paths: segments joined by a delimiter, the byte order on keys,
//! and the buffer that a traversal grows and shrinks as it walks a document.

use vstd::prelude::*;

verus! {

/// The byte that follows every segment of an encoded path (`/`).
pub const DELIMITER: u8 = 47;

/// The byte that sorts directly after the delimiter (`0`).
pub const AFTER_DELIMITER: u8 = 48;

// ---------------------------------------------------------------------------
// Encoding
// ---------------------------------------------------------------------------

/// The decimal digits of `n`, most significant first, as ASCII bytes.
pub open spec fn decimal(n: nat) -> Seq<u8>
    decreases n,
{
    if n < 10 {
        seq![(48 + n) as u8]
    } else {
        decimal(n / 10).push((48 + n % 10) as u8)
    }
}

/// A path as one key: every segment followed by the delimiter.
pub open spec fn encode_path(path: Seq<Seq<u8>>) -> Seq<u8>
    decreases path.len(),
{
    if path.len() == 0 {
        Seq::empty()
    } else {
        encode_path(path.drop_last()) + path.last() + seq![DELIMITER]
    }
}

/// A segment that can be read back from a key: not empty, and free of the
/// delimiter.
pub open spec fn plain_segment(segment: Seq<u8>) -> bool {
    segment.len() > 0 && forall|i: int| 0 <= i < segment.len() ==> segment[i] != DELIMITER
}

/// Why a segment cannot stand in a key.
#[derive(Debug, PartialEq, Eq, Clone, Copy)]
pub enum PathError {
    /// The segment has no bytes: in a key it would be a lone delimiter,
    /// which reads back as no segment at all.
    EmptySegment,
    /// The segment holds the delimiter: in a key it would read back as two
    /// segments.
    DelimiterInSegment,
}

/// What is wrong with a segment, if anything: nothing exactly if it is a
/// plain segment.
pub open spec fn segment_error(segment: Seq<u8>) -> Option<PathError> {
    if segment.len() == 0 {
        Some(PathError::EmptySegment)
    } else if !plain_segment(segment) {
        Some(PathError::DelimiterInSegment)
    } else {
        None
    }
}

/// The position of the first delimiter at or after `i`, or the end of `bytes`
/// if there is none.
pub open spec fn run_end(bytes: Seq<u8>, i: int) -> int
    decreases bytes.len() - i,
{
    if i >= bytes.len() || bytes[i] == DELIMITER {
        i
    } else {
        run_end(bytes, i + 1)
    }
}

/// The bytes of `key` from `from` up to the next delimiter.
pub open spec fn first_segment(key: Seq<u8>, from: int) -> Seq<u8> {
    key.subrange(from, run_end(key, from))
}

/// The non-empty segments of `bytes` from position `i` on: the maximal runs
/// of bytes between delimiters, in order. Empty runs are left out.
pub open spec fn segments_from(bytes: Seq<u8>, i: int) -> Seq<Seq<u8>>
    decreases bytes.len() - i,
{
    if i < 0 || i >= bytes.len() {
        Seq::empty()
    } else {
        let end = run_end(bytes, i);
        let head = if end > i {
            seq![bytes.subrange(i, end)]
        } else {
            Seq::empty()
        };
        if i <= end < bytes.len() {
            head + segments_from(bytes, end + 1)
        } else {
            head
        }
    }
}

/// The byte strings that a list of owned segments holds.
pub open spec fn segments_view(segments: Seq<Vec<u8>>) -> Seq<Seq<u8>> {
    Seq::new(segments.len(), |i: int| segments[i]@)
}

/// The decimal digits of a number are digits: at least one, two or more
/// from ten on, and none of them the delimiter.
pub proof fn lemma_decimal_digits(n: nat)
    ensures
        decimal(n).len() >= 1,
        n >= 10 ==> decimal(n).len() >= 2,
        forall|i: int| 0 <= i < decimal(n).len() ==> 48 <= #[trigger] decimal(n)[i] <= 57,
        plain_segment(decimal(n)),
    decreases n,
{
    if n >= 10 {
        lemma_decimal_digits(n / 10);
    }
}

/// Different numbers have different decimal digits.
pub proof fn lemma_decimal_injective(a: nat, b: nat)
    requires
        decimal(a) == decimal(b),
    ensures
        a == b,
    decreases a,
{
    lemma_decimal_digits(a);
    lemma_decimal_digits(b);
    if a < 10 && b < 10 {
        assert(decimal(a)[0] == (48 + a) as u8);
        assert(decimal(b)[0] == (48 + b) as u8);
    } else if a >= 10 && b >= 10 {
        let x = decimal(a / 10);
        let y = decimal(b / 10);
        assert(decimal(a).last() == (48 + a % 10) as u8);
        assert(decimal(b).last() == (48 + b % 10) as u8);
        assert(a % 10 == b % 10);
        assert(decimal(a).drop_last() =~= x);
        assert(decimal(b).drop_last() =~= y);
        lemma_decimal_injective(a / 10, b / 10);
        assert(a == 10 * (a / 10) + a % 10);
        assert(b == 10 * (b / 10) + b % 10);
    } else if a < 10 {
        assert(decimal(a).len() == 1);
    } else {
        assert(decimal(b).len() == 1);
    }
}

/// `run_end` stays inside the key, and no delimiter lies before it.
pub proof fn lemma_run_end_bounds(bytes: Seq<u8>, i: int)
    requires
        0 <= i <= bytes.len(),
    ensures
        i <= run_end(bytes, i) <= bytes.len(),
        run_end(bytes, i) < bytes.len() ==> bytes[run_end(bytes, i)] == DELIMITER,
        forall|j: int| i <= j < run_end(bytes, i) ==> bytes[j] != DELIMITER,
    decreases bytes.len() - i,
{
    if i >= bytes.len() || bytes[i] == DELIMITER {
    } else {
        lemma_run_end_bounds(bytes, i + 1);
    }
}

/// `run_end` is the only position at or after `i` that ends a delimiter-free
/// run starting at `i`.
pub proof fn lemma_run_end_is(bytes: Seq<u8>, i: int, end: int)
    requires
        0 <= i <= end <= bytes.len(),
        forall|j: int| i <= j < end ==> bytes[j] != DELIMITER,
        end < bytes.len() ==> bytes[end] == DELIMITER,
    ensures
        run_end(bytes, i) == end,
    decreases end - i,
{
    if i < end {
        lemma_run_end_is(bytes, i + 1, end);
    }
}

// ---------------------------------------------------------------------------
// Key order
// ---------------------------------------------------------------------------

/// The first position at or after `i` where `a` and `b` differ or one of
/// them ends.
pub open spec fn mismatch(a: Seq<u8>, b: Seq<u8>, i: int) -> int
    decreases a.len() - i,
{
    if i >= a.len() || i >= b.len() || a[i] != b[i] {
        i
    } else {
        mismatch(a, b, i + 1)
    }
}

/// `a` sorts strictly before `b` when keys are compared byte by byte: at the
/// first position where they part, `a` has ended or holds the smaller byte.
pub open spec fn key_lt(a: Seq<u8>, b: Seq<u8>) -> bool {
    let d = mismatch(a, b, 0);
    d < b.len() && (d >= a.len() || a[d] < b[d])
}

/// `a` sorts before `b` or equals it.
pub open spec fn key_le(a: Seq<u8>, b: Seq<u8>) -> bool {
    !key_lt(b, a)
}

/// What `mismatch` returns: the keys agree before it, and part at it.
pub proof fn lemma_mismatch(a: Seq<u8>, b: Seq<u8>, i: int)
    requires
        0 <= i <= a.len(),
        i <= b.len(),
    ensures
        i <= mismatch(a, b, i) <= a.len(),
        mismatch(a, b, i) <= b.len(),
        forall|j: int| i <= j < mismatch(a, b, i) ==> a[j] == b[j],
        mismatch(a, b, i) < a.len() && mismatch(a, b, i) < b.len() ==> a[mismatch(a, b, i)]
            != b[mismatch(a, b, i)],
    decreases a.len() - i,
{
    if i >= a.len() || i >= b.len() || a[i] != b[i] {
    } else {
        lemma_mismatch(a, b, i + 1);
    }
}

/// A position where two keys that agree from `i` on part is their mismatch.
pub proof fn lemma_mismatch_is(a: Seq<u8>, b: Seq<u8>, i: int, d: int)
    requires
        0 <= i <= d <= a.len(),
        d <= b.len(),
        forall|j: int| i <= j < d ==> a[j] == b[j],
        d < a.len() && d < b.len() ==> a[d] != b[d],
    ensures
        mismatch(a, b, i) == d,
    decreases d - i,
{
    if i < d {
        lemma_mismatch_is(a, b, i + 1, d);
    }
}

/// The mismatch of two keys does not depend on their order.
pub proof fn lemma_mismatch_symmetric(a: Seq<u8>, b: Seq<u8>)
    ensures
        mismatch(a, b, 0) == mismatch(b, a, 0),
{
    lemma_mismatch(a, b, 0);
    lemma_mismatch_is(b, a, 0, mismatch(a, b, 0));
}

/// No key sorts before itself.
pub proof fn lemma_key_lt_irreflexive(a: Seq<u8>)
    ensures
        !key_lt(a, a),
{
    lemma_mismatch_is(a, a, 0, a.len() as int);
}

/// Of two keys, one sorts before the other or they are equal.
pub proof fn lemma_key_lt_total(a: Seq<u8>, b: Seq<u8>)
    ensures
        key_lt(a, b) || key_lt(b, a) || a == b,
{
    lemma_mismatch(a, b, 0);
    lemma_mismatch_symmetric(a, b);
    let d = mismatch(a, b, 0);
    if d == a.len() && d == b.len() {
        assert(a =~= b);
    }
}

/// Two keys never sort before each other.
pub proof fn lemma_key_lt_asymmetric(a: Seq<u8>, b: Seq<u8>)
    requires
        key_lt(a, b),
    ensures
        !key_lt(b, a),
        a != b,
{
    lemma_mismatch(a, b, 0);
    lemma_mismatch_symmetric(a, b);
    lemma_key_lt_irreflexive(a);
}

/// The key order is transitive.
pub proof fn lemma_key_lt_transitive(a: Seq<u8>, b: Seq<u8>, c: Seq<u8>)
    requires
        key_lt(a, b),
        key_lt(b, c),
    ensures
        key_lt(a, c),
{
    lemma_mismatch(a, b, 0);
    lemma_mismatch(b, c, 0);
    let d1 = mismatch(a, b, 0);
    let d2 = mismatch(b, c, 0);
    let d = if d1 <= d2 {
        d1
    } else {
        d2
    };
    lemma_mismatch_is(a, c, 0, d);
}

/// A key that does not sort before another sorts before whatever that other
/// key sorts before.
pub proof fn lemma_key_le_lt_transitive(a: Seq<u8>, b: Seq<u8>, c: Seq<u8>)
    requires
        key_le(a, b),
        key_lt(b, c),
    ensures
        key_lt(a, c),
{
    lemma_key_lt_total(a, b);
    if a != b {
        lemma_key_lt_transitive(a, b, c);
    }
}

/// A key sorts before whatever a larger key does not sort after.
pub proof fn lemma_key_lt_le_transitive(a: Seq<u8>, b: Seq<u8>, c: Seq<u8>)
    requires
        key_lt(a, b),
        key_le(b, c),
    ensures
        key_lt(a, c),
{
    lemma_key_lt_total(b, c);
    if b != c {
        lemma_key_lt_transitive(a, b, c);
    }
}

/// A prefix never sorts after a key that starts with it.
pub proof fn lemma_prefix_sorts_first(prefix: Seq<u8>, key: Seq<u8>)
    requires
        prefix.is_prefix_of(key),
    ensures
        key_le(prefix, key),
{
    lemma_mismatch_is(key, prefix, 0, prefix.len() as int);
}

/// Once a key at or after `prefix` fails to start with it, every key that
/// does start with it sorts before that key.
pub proof fn lemma_prefix_range_ends(prefix: Seq<u8>, inside: Seq<u8>, beyond: Seq<u8>)
    requires
        prefix.is_prefix_of(inside),
        key_le(prefix, beyond),
        !prefix.is_prefix_of(beyond),
    ensures
        key_lt(inside, beyond),
{
    lemma_mismatch(beyond, prefix, 0);
    let d = mismatch(beyond, prefix, 0);
    if d == prefix.len() {
        assert(beyond.subrange(0, prefix.len() as int) =~= prefix);
    }
    lemma_mismatch_is(inside, beyond, 0, d);
}

// ---------------------------------------------------------------------------
// Executable helpers
// ---------------------------------------------------------------------------

/// Whether `a` sorts strictly before `b`.
pub fn key_less(a: &[u8], b: &[u8]) -> (r: bool)
    ensures
        r == key_lt(a@, b@),
{
    let mut i: usize = 0;
    while i < a.len() && i < b.len()
        invariant
            i <= a.len(),
            i <= b.len(),
            mismatch(a@, b@, 0) == mismatch(a@, b@, i as int),
        decreases a.len() - i,
    {
        if a[i] != b[i] {
            return a[i] < b[i];
        }
        i += 1;
    }
    i < b.len()
}

/// Whether `key` starts with `prefix`.
pub fn starts_with(key: &[u8], prefix: &[u8]) -> (r: bool)
    ensures
        r == prefix@.is_prefix_of(key@),
{
    if prefix.len() > key.len() {
        return false;
    }
    let mut i: usize = 0;
    while i < prefix.len()
        invariant
            i <= prefix.len() <= key.len(),
            forall|j: int| 0 <= j < i ==> key@[j] == prefix@[j],
        decreases prefix.len() - i,
    {
        if key[i] != prefix[i] {
            assert(key@.subrange(0, prefix@.len() as int)[i as int] != prefix@[i as int]);
            return false;
        }
        i += 1;
    }
    assert(prefix@ =~= key@.subrange(0, prefix@.len() as int));
    true
}

/// Whether two keys hold the same bytes.
pub fn same_bytes(a: &[u8], b: &[u8]) -> (r: bool)
    ensures
        r == (a@ == b@),
{
    if a.len() != b.len() {
        return false;
    }
    let mut i: usize = 0;
    while i < a.len()
        invariant
            i <= a.len(),
            a.len() == b.len(),
            forall|j: int| 0 <= j < i ==> a@[j] == b@[j],
        decreases a.len() - i,
    {
        if a[i] != b[i] {
            return false;
        }
        i += 1;
    }
    assert(a@ =~= b@);
    true
}

/// A copy of the bytes of `bytes` from `from` up to `to`.
pub fn copy_range(bytes: &[u8], from: usize, to: usize) -> (r: Vec<u8>)
    requires
        from <= to <= bytes.len(),
    ensures
        r@ == bytes@.subrange(from as int, to as int),
{
    let mut out: Vec<u8> = Vec::new();
    let mut i: usize = from;
    while i < to
        invariant
            from <= i <= to <= bytes.len(),
            out@ == bytes@.subrange(from as int, i as int),
        decreases to - i,
    {
        out.push(bytes[i]);
        i += 1;
        assert(out@ =~= bytes@.subrange(from as int, i as int));
    }
    out
}

/// Whether `segment` can stand in a key: it is not empty and holds no
/// delimiter.
pub fn is_plain(segment: &[u8]) -> (b: bool)
    ensures
        b == plain_segment(segment@),
{
    if segment.len() == 0 {
        return false;
    }
    let mut i: usize = 0;
    while i < segment.len()
        invariant
            i <= segment.len(),
            forall|j: int| 0 <= j < i ==> segment@[j] != DELIMITER,
        decreases segment.len() - i,
    {
        if segment[i] == DELIMITER {
            return false;
        }
        i += 1;
    }
    true
}

/// The decimal digits of `n` as ASCII bytes.
pub fn decimal_digits(n: u64) -> (r: Vec<u8>)
    ensures
        r@ == decimal(n as nat),
    decreases n,
{
    if n < 10 {
        let mut digits: Vec<u8> = Vec::new();
        digits.push(48 + n as u8);
        assert(digits@ =~= seq![(48 + n) as u8]);
        digits
    } else {
        let mut digits = decimal_digits(n / 10);
        digits.push(48 + (n % 10) as u8);
        digits
    }
}

/// The end of the delimiter-free run of `bytes` that starts at `from`.
pub fn find_run_end(bytes: &[u8], from: usize) -> (end: usize)
    requires
        from <= bytes.len(),
    ensures
        end == run_end(bytes@, from as int),
        from <= end <= bytes.len(),
{
    let mut i: usize = from;
    while i < bytes.len() && bytes[i] != DELIMITER
        invariant
            from <= i <= bytes.len(),
            run_end(bytes@, from as int) == run_end(bytes@, i as int),
        decreases bytes.len() - i,
    {
        i += 1;
    }
    i
}

/// Splits `bytes`, from position `from` on, at every delimiter and returns
/// the segments that are not empty, in order.
pub fn split_segments(bytes: &[u8], from: usize) -> (segments: Vec<Vec<u8>>)
    ensures
        segments_view(segments@) == segments_from(bytes@, from as int),
{
    let mut segments: Vec<Vec<u8>> = Vec::new();
    let mut i: usize = from;
    while i < bytes.len()
        invariant
            from <= i,
            segments_view(segments@) + segments_from(bytes@, i as int) == segments_from(
                bytes@,
                from as int,
            ),
        decreases bytes.len() - i,
    {
        let end = find_run_end(bytes, i);
        let ghost before = segments_view(segments@);
        if end > i {
            let segment = copy_range(bytes, i, end);
            segments.push(segment);
            assert(segments_view(segments@) =~= before.push(bytes@.subrange(i as int, end as int)));
            assert(before.push(bytes@.subrange(i as int, end as int)) + segments_from(
                bytes@,
                end as int + 1,
            ) =~= before + (seq![bytes@.subrange(i as int, end as int)] + segments_from(
                bytes@,
                end as int + 1,
            )));
        }
        if end == bytes.len() {
            assert(segments_from(bytes@, end as int + 1) =~= Seq::<Seq<u8>>::empty());
            assert(segments_from(bytes@, end as int) =~= Seq::<Seq<u8>>::empty());
            i = end;
        } else {
            i = end + 1;
        }
    }
    assert(segments_from(bytes@, i as int) =~= Seq::<Seq<u8>>::empty());
    assert(segments_view(segments@) + Seq::<Seq<u8>>::empty() =~= segments_view(segments@));
    segments
}

// ---------------------------------------------------------------------------
// The path buffer
// ---------------------------------------------------------------------------

/// The path of the node that a traversal is at, as one growing and shrinking
/// key. Descending appends a segment and the delimiter; ascending cuts the
/// buffer back to the length it had before.
pub struct PathBuffer {
    bytes: Vec<u8>,
}

impl View for PathBuffer {
    type V = Seq<u8>;

    closed spec fn view(&self) -> Seq<u8> {
        self.bytes@
    }
}

impl PathBuffer {
    /// The path of the root: the empty key.
    pub fn new() -> (buffer: PathBuffer)
        ensures
            buffer@ == Seq::<u8>::empty(),
    {
        PathBuffer { bytes: Vec::new() }
    }

    /// The number of bytes in the buffer.
    pub fn len(&self) -> (n: usize)
        ensures
            n == self@.len(),
    {
        self.bytes.len()
    }

    /// The key of the current node.
    pub fn as_slice(&self) -> (key: &[u8])
        ensures
            key@ == self@,
    {
        self.bytes.as_slice()
    }

    /// Appends `segment` and the delimiter. Returns the length before.
    fn append(&mut self, segment: &[u8]) -> (mark: usize)
        ensures
            final(self)@ == old(self)@ + segment@ + seq![DELIMITER],
            mark == old(self)@.len(),
    {
        let mark = self.bytes.len();
        let mut i: usize = 0;
        while i < segment.len()
            invariant
                i <= segment.len(),
                self.bytes@ == old(self).bytes@ + segment@.subrange(0, i as int),
            decreases segment.len() - i,
        {
            self.bytes.push(segment[i]);
            i += 1;
            assert(self.bytes@ =~= old(self).bytes@ + segment@.subrange(0, i as int));
        }
        assert(segment@.subrange(0, segment@.len() as int) =~= segment@);
        self.bytes.push(DELIMITER);
        mark
    }

    /// Descends into the entry named `segment`: appends the segment and the
    /// delimiter, and returns the length to cut back to when the traversal
    /// leaves that entry. A segment that is empty or holds the delimiter is
    /// refused, and the buffer stays as it is: its key could not be told
    /// from the key of another path.
    pub fn push_segment(&mut self, segment: &[u8]) -> (r: Result<usize, PathError>)
        ensures
            match segment_error(segment@) {
                None => (r matches Ok(mark) && mark == old(self)@.len()) && final(self)@ == old(
                    self,
                )@ + segment@ + seq![DELIMITER],
                Some(e) => r == Err::<usize, PathError>(e) && final(self)@ == old(self)@,
            },
    {
        if segment.len() == 0 {
            return Err(PathError::EmptySegment);
        }
        if !is_plain(segment) {
            return Err(PathError::DelimiterInSegment);
        }
        Ok(self.append(segment))
    }

    /// Descends into the element at position `index` of a sequence: appends
    /// the decimal digits of the index and the delimiter.
    pub fn push_index(&mut self, index: u64) -> (mark: usize)
        ensures
            final(self)@ == old(self)@ + decimal(index as nat) + seq![DELIMITER],
            mark == old(self)@.len(),
    {
        let digits = decimal_digits(index);
        self.append(digits.as_slice())
    }

    /// Ascends: cuts the buffer back to `mark` bytes. A mark beyond the end
    /// leaves the buffer as it is.
    pub fn truncate(&mut self, mark: usize)
        ensures
            mark <= old(self)@.len() ==> final(self)@ == old(self)@.subrange(0, mark as int),
            mark > old(self)@.len() ==> final(self)@ == old(self)@,
    {
        self.bytes.truncate(mark);
    }
}

} // verus!
