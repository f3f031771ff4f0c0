//! The shared view contract: the token range type, range selectors, the
//! specification model of a sequence of strings, and the primitive accessor
//! trait that every representation implements.

use vstd::prelude::*;

verus! {

/// One element's location in the arena: the half-open range `[start, end)`
/// of character positions. Bounds are 32-bit by design: no element may end
/// past position `u32::MAX`, and no sequence may hold more than `u32::MAX`
/// elements.
#[derive(Clone, Copy, PartialEq, Eq, Structural, Debug, Hash)]
pub struct TokenRange {
    pub start: u32,
    pub end: u32,
}

/// A fully normalized half-open range `[start, end)` over element positions.
#[derive(Clone, Copy, PartialEq, Eq, Structural, Debug)]
pub struct IndexRange {
    pub start: usize,
    pub end: usize,
}

/// Converts a range selector that may omit either bound into an explicit
/// half-open `[start, end)` range against a known length: an omitted start
/// defaults to 0 and an omitted end defaults to the length. No bounds
/// validation happens here; the operation that uses the result checks it.
pub trait ToRange: Sized {
    /// The normalized range, as a specification-level value.
    spec fn spec_to_range(self, array_len: int) -> IndexRange;

    /// Normalize this selector against `array_len`.
    fn to_range(self, array_len: usize) -> (r: IndexRange)
        ensures
            r == self.spec_to_range(array_len as int),
    ;
}

impl ToRange for IndexRange {
    open spec fn spec_to_range(self, array_len: int) -> IndexRange {
        self
    }

    fn to_range(self, array_len: usize) -> (r: IndexRange) {
        self
    }
}

impl ToRange for core::ops::Range<usize> {
    open spec fn spec_to_range(self, array_len: int) -> IndexRange {
        IndexRange { start: self.start, end: self.end }
    }

    fn to_range(self, array_len: usize) -> (r: IndexRange) {
        IndexRange { start: self.start, end: self.end }
    }
}

/// Declares `core::ops::RangeFrom` to the verifier so that `start..` can be
/// used as a selector; its one public field is `start`.
#[verifier::external_type_specification]
#[verifier::reject_recursive_types(Idx)]
pub struct ExRangeFrom<Idx>(core::ops::RangeFrom<Idx>);

impl ToRange for core::ops::RangeFrom<usize> {
    open spec fn spec_to_range(self, array_len: int) -> IndexRange {
        IndexRange { start: self.start, end: array_len as usize }
    }

    fn to_range(self, array_len: usize) -> (r: IndexRange) {
        IndexRange { start: self.start, end: array_len }
    }
}

/// Declares `core::ops::RangeTo` to the verifier so that `..end` can be
/// used as a selector; its one public field is `end`.
#[verifier::external_type_specification]
#[verifier::reject_recursive_types(Idx)]
pub struct ExRangeTo<Idx>(core::ops::RangeTo<Idx>);

impl ToRange for core::ops::RangeTo<usize> {
    open spec fn spec_to_range(self, array_len: int) -> IndexRange {
        IndexRange { start: 0, end: self.end }
    }

    fn to_range(self, array_len: usize) -> (r: IndexRange) {
        IndexRange { start: 0, end: self.end }
    }
}

/// Declares `core::ops::RangeFull` to the verifier so that `..` can be used
/// as a selector; it is a fieldless unit struct.
#[verifier::external_type_specification]
pub struct ExRangeFull(core::ops::RangeFull);

impl ToRange for core::ops::RangeFull {
    open spec fn spec_to_range(self, array_len: int) -> IndexRange {
        IndexRange { start: 0, end: array_len as usize }
    }

    fn to_range(self, array_len: usize) -> (r: IndexRange) {
        IndexRange { start: 0, end: array_len }
    }
}

/// The token ranges tile the arena: each is well-ordered, ends within
/// `text_len`, and each token begins exactly where the previous one ends.
pub open spec fn tokens_wf(toks: Seq<TokenRange>, text_len: int) -> bool {
    &&& forall|i: int|
        0 <= i < toks.len() ==> toks[i].start <= toks[i].end && toks[i].end <= text_len
    &&& forall|i: int| 0 <= i && i + 1 < toks.len() ==> toks[i].end == toks[i + 1].start
}

/// In a contiguous, well-ordered token sequence, `end` never decreases.
pub proof fn lemma_end_monotone(toks: Seq<TokenRange>, i: int, j: int)
    requires
        forall|k: int| 0 <= k < toks.len() ==> toks[k].start <= toks[k].end,
        forall|k: int| 0 <= k && k + 1 < toks.len() ==> toks[k].end == toks[k + 1].start,
        0 <= i <= j < toks.len(),
    ensures
        toks[i].end <= toks[j].end,
        toks[i].start <= toks[j].start,
    decreases j - i,
{
    if i < j {
        lemma_end_monotone(toks, i, j - 1);
    }
}

/// The element strings that `toks` locates inside `text`, in index order.
pub open spec fn elems_of(text: Seq<char>, toks: Seq<TokenRange>) -> Seq<Seq<char>> {
    toks.map(|i: int, t: TokenRange| text.subrange(t.start as int, t.end as int))
}

/// The tokens tile the arena exactly: contiguous, starting at position 0,
/// and ending at the arena's end, with the element count within the 32-bit
/// bound.
pub open spec fn exact_wf(text: Seq<char>, toks: Seq<TokenRange>) -> bool {
    &&& tokens_wf(toks, text.len() as int)
    &&& (toks.len() > 0 ==> toks[0].start == 0)
    &&& text.len() == if toks.len() == 0 {
        0int
    } else {
        toks.last().end as int
    }
    &&& toks.len() <= u32::MAX
}

/// Tokens that lie inside a common prefix of two arenas locate the same
/// elements in both.
pub proof fn lemma_elems_prefix(text1: Seq<char>, text2: Seq<char>, toks: Seq<TokenRange>)
    requires
        text1.len() <= text2.len(),
        forall|k: int| 0 <= k < text1.len() ==> text1[k] == text2[k],
        forall|i: int|
            0 <= i < toks.len() ==> toks[i].start <= toks[i].end && toks[i].end <= text1.len(),
    ensures
        elems_of(text1, toks) == elems_of(text2, toks),
{
    assert forall|i: int| 0 <= i < toks.len() implies elems_of(text1, toks)[i] == elems_of(
        text2,
        toks,
    )[i] by {
        assert(text1.subrange(toks[i].start as int, toks[i].end as int) =~= text2.subrange(
            toks[i].start as int,
            toks[i].end as int,
        ));
    }
    assert(elems_of(text1, toks) =~= elems_of(text2, toks));
}

/// The total number of characters over all elements.
pub open spec fn total_chars(elems: Seq<Seq<char>>) -> int
    decreases elems.len(),
{
    if elems.len() == 0 {
        0
    } else {
        total_chars(elems.drop_last()) + elems.last().len()
    }
}

/// Extending a prefix by one element adds that element's length to the
/// prefix's character total.
pub proof fn lemma_total_chars_step(elems: Seq<Seq<char>>, i: int)
    requires
        0 <= i < elems.len(),
    ensures
        total_chars(elems.subrange(0, i + 1)) == total_chars(elems.subrange(0, i))
            + elems[i].len(),
{
    assert(elems.subrange(0, i + 1).drop_last() =~= elems.subrange(0, i));
}

/// A prefix never has more characters than the whole.
pub proof fn lemma_total_chars_prefix(elems: Seq<Seq<char>>, i: int)
    requires
        0 <= i <= elems.len(),
    ensures
        total_chars(elems.subrange(0, i)) <= total_chars(elems),
    decreases elems.len() - i,
{
    if i == elems.len() {
        assert(elems.subrange(0, i) =~= elems);
    } else {
        lemma_total_chars_step(elems, i);
        lemma_total_chars_prefix(elems, i + 1);
    }
}

/// The concatenation of all elements, in order, with no separators.
pub open spec fn concat_of(elems: Seq<Seq<char>>) -> Seq<char>
    decreases elems.len(),
{
    if elems.len() == 0 {
        Seq::empty()
    } else {
        elems[0] + concat_of(elems.drop_first())
    }
}

/// The primitive accessor shared by every representation: a specification
/// view of the arena and the token index, plus elementwise access to both.
/// All view operations are built on these.
pub trait StringSequenceView: Sized {
    /// The full character arena this representation can read.
    spec fn arena(&self) -> Seq<char>;

    /// The visible token ranges, in element order, with offsets into
    /// [`StringSequenceView::arena`].
    spec fn tokens(&self) -> Seq<TokenRange>;

    /// The representation invariant; every public operation preserves it.
    spec fn inv(&self) -> bool;

    /// The visible elements: what iteration yields, in order. Always equal
    /// to `elems_of(self.arena(), self.tokens())`; see
    /// [`StringSequenceView::inv_tokens_wf`].
    spec fn velems(&self) -> Seq<Seq<char>>;

    /// The invariant puts every visible token inside the arena, contiguously,
    /// and the visible elements are exactly what the tokens locate.
    proof fn inv_tokens_wf(&self)
        requires
            self.inv(),
        ensures
            tokens_wf(self.tokens(), self.arena().len() as int),
            self.tokens().len() <= u32::MAX,
            self.velems() == elems_of(self.arena(), self.tokens()),
    ;

    /// How many elements are visible.
    fn token_count(&self) -> (n: usize)
        requires
            self.inv(),
        ensures
            n == self.tokens().len(),
    ;

    /// The range of the `i`-th visible element.
    fn token_at(&self, i: usize) -> (t: TokenRange)
        requires
            self.inv(),
            i < self.tokens().len(),
        ensures
            t == self.tokens()[i as int],
    ;

    /// The arena character at position `j`.
    fn char_at(&self, j: usize) -> (c: char)
        requires
            self.inv(),
            j < self.arena().len(),
        ensures
            c == self.arena()[j as int],
    ;
}

/// Relies on `String::push`: it appends the given character to the end of
/// the string.
#[verifier::external_body]
pub(crate) fn push_char(s: &mut String, c: char)
    ensures
        final(s)@ == old(s)@.push(c),
{
    s.push(c);
}

/// The `i`-th visible element, copied into an owned string.
pub fn elem_string<T: StringSequenceView>(v: &T, i: usize) -> (r: String)
    requires
        v.inv(),
        i < v.tokens().len(),
    ensures
        r@ == v.velems()[i as int],
{
    proof {
        v.inv_tokens_wf();
    }
    let t = v.token_at(i);
    let mut r = String::new();
    let mut j = t.start;
    while j < t.end
        invariant
            v.inv(),
            i < v.tokens().len(),
            t == v.tokens()[i as int],
            t.start <= j <= t.end,
            t.end <= v.arena().len(),
            r@ == v.arena().subrange(t.start as int, j as int),
        decreases t.end - j,
    {
        let c = v.char_at(j as usize);
        push_char(&mut r, c);
        proof {
            assert(r@ =~= v.arena().subrange(t.start as int, j as int + 1));
        }
        j += 1;
    }
    proof {
        assert(v.velems()[i as int] == v.arena().subrange(t.start as int, t.end as int));
    }
    r
}

/// Contiguous tokens concatenate to the arena span they tile: the full text
/// of the elements is the arena from the first token's start to the last
/// token's end.
pub proof fn lemma_concat_contiguous(text: Seq<char>, toks: Seq<TokenRange>)
    requires
        toks.len() > 0,
        forall|i: int|
            0 <= i < toks.len() ==> (#[trigger] toks[i]).start <= toks[i].end && toks[i].end
                <= text.len(),
        forall|i: int| 0 <= i && i + 1 < toks.len() ==> toks[i].end == toks[i + 1].start,
    ensures
        concat_of(elems_of(text, toks)) == text.subrange(
            toks[0].start as int,
            toks.last().end as int,
        ),
    decreases toks.len(),
{
    let elems = elems_of(text, toks);
    let s0 = toks[0].start as int;
    let e0 = toks[0].end as int;
    if toks.len() == 1 {
        assert(concat_of(elems.drop_first()) == Seq::<char>::empty());
        assert(elems[0] + Seq::<char>::empty() =~= text.subrange(s0, e0));
    } else {
        let rest = toks.drop_first();
        assert(elems.drop_first() =~= elems_of(text, rest));
        lemma_concat_contiguous(text, rest);
        let el = toks.last().end as int;
        assert(rest[0].start == e0 && rest.last() == toks.last());
        lemma_end_monotone(toks, 0, toks.len() as int - 1);
        assert(text.subrange(s0, e0) + text.subrange(e0, el) =~= text.subrange(s0, el));
    }
}

/// The full text: every element concatenated in order, with no separators.
pub fn seq_text<T: StringSequenceView>(v: &T) -> (r: String)
    requires
        v.inv(),
    ensures
        r@ == concat_of(v.velems()),
{
    proof {
        v.inv_tokens_wf();
    }
    let n = v.token_count();
    let mut r = String::new();
    if n == 0 {
        proof {
            assert(v.velems() =~= Seq::<Seq<char>>::empty());
        }
        return r;
    }
    let start = v.token_at(0).start;
    let end = v.token_at(n - 1).end;
    proof {
        lemma_end_monotone(v.tokens(), 0, n as int - 1);
        lemma_concat_contiguous(v.arena(), v.tokens());
    }
    let mut j = start;
    while j < end
        invariant
            v.inv(),
            n == v.tokens().len(),
            n > 0,
            start == v.tokens()[0].start,
            end == v.tokens()[n as int - 1].end,
            end <= v.arena().len(),
            start <= j <= end,
            r@ == v.arena().subrange(start as int, j as int),
        decreases end - j,
    {
        let c = v.char_at(j as usize);
        push_char(&mut r, c);
        proof {
            assert(r@ =~= v.arena().subrange(start as int, j as int + 1));
        }
        j += 1;
    }
    r
}

/// How many elements are visible.
pub fn seq_len<T: StringSequenceView>(v: &T) -> (n: usize)
    requires
        v.inv(),
    ensures
        n == v.velems().len(),
{
    proof {
        v.inv_tokens_wf();
    }
    v.token_count()
}

/// The `i`-th element, or `None` when `i` is out of bounds.
pub fn seq_get<T: StringSequenceView>(v: &T, i: usize) -> (r: Option<String>)
    requires
        v.inv(),
    ensures
        i < v.velems().len() ==> (r matches Some(s) && s@ == v.velems()[i as int]),
        i >= v.velems().len() ==> r is None,
{
    proof {
        v.inv_tokens_wf();
    }
    if i < v.token_count() {
        Some(elem_string(v, i))
    } else {
        None
    }
}

/// Every visible element, copied in order into owned strings.
pub fn seq_to_vec<T: StringSequenceView>(v: &T) -> (r: Vec<String>)
    requires
        v.inv(),
    ensures
        r.deep_view() == v.velems(),
{
    proof {
        v.inv_tokens_wf();
    }
    let n = v.token_count();
    let mut r: Vec<String> = Vec::new();
    let mut i: usize = 0;
    while i < n
        invariant
            v.inv(),
            n == v.tokens().len(),
            i <= n,
            r@.len() == i,
            forall|k: int| 0 <= k < i ==> (#[trigger] r@[k])@ == v.velems()[k],
        decreases n - i,
    {
        let s = elem_string(v, i);
        proof {
            v.inv_tokens_wf();
        }
        r.push(s);
        i += 1;
    }
    proof {
        v.inv_tokens_wf();
        assert forall|k: int| 0 <= k < n implies r.deep_view()[k] == v.velems()[k] by {
            assert(r@[k].deep_view() == r@[k]@);
        }
        assert(r.deep_view() =~= v.velems());
    }
    r
}

/// A double-ended cursor over a snapshot of a sequence's elements, in index
/// order. A fresh call to `iter` or `slice` restarts iteration.
pub struct StringSequenceIter {
    elems: Vec<String>,
    front: usize,
    back: usize,
}

impl StringSequenceIter {
    /// The elements not yet yielded, in order.
    pub closed spec fn remaining(&self) -> Seq<Seq<char>> {
        self.elems.deep_view().subrange(self.front as int, self.back as int)
    }

    /// The cursors stay ordered and in bounds.
    pub closed spec fn inv(&self) -> bool {
        self.front <= self.back <= self.elems@.len()
    }

    /// Yield the next element from the front, or `None` when exhausted.
    pub fn next(&mut self) -> (r: Option<String>)
        requires
            old(self).inv(),
        ensures
            final(self).inv(),
            old(self).remaining().len() > 0 ==> (r matches Some(s) && s@ == old(self).remaining()[0]
                && final(self).remaining() == old(self).remaining().drop_first()),
            old(self).remaining().len() == 0 ==> (r is None && final(self).remaining() == old(
                self,
            ).remaining()),
    {
        if self.front < self.back {
            let s = self.elems[self.front].clone();
            self.front += 1;
            proof {
                assert(s@ == old(self).remaining()[0]);
                assert(self.remaining() =~= old(self).remaining().drop_first());
            }
            Some(s)
        } else {
            None
        }
    }

    /// Yield the next element from the back, or `None` when exhausted.
    pub fn next_back(&mut self) -> (r: Option<String>)
        requires
            old(self).inv(),
        ensures
            final(self).inv(),
            old(self).remaining().len() > 0 ==> (r matches Some(s) && s@ == old(
                self,
            ).remaining().last() && final(self).remaining() == old(self).remaining().drop_last()),
            old(self).remaining().len() == 0 ==> (r is None && final(self).remaining() == old(
                self,
            ).remaining()),
    {
        if self.front < self.back {
            let s = self.elems[self.back - 1].clone();
            self.back -= 1;
            proof {
                assert(s@ == old(self).remaining().last());
                assert(self.remaining() =~= old(self).remaining().drop_last());
            }
            Some(s)
        } else {
            None
        }
    }

    /// Skip `n` elements and yield the one after them, or `None` when fewer
    /// than `n + 1` remain.
    pub fn nth(&mut self, n: usize) -> (r: Option<String>)
        requires
            old(self).inv(),
        ensures
            final(self).inv(),
            n < old(self).remaining().len() ==> (r matches Some(s) && s@ == old(self).remaining()[
                n as int
            ] && final(self).remaining() == old(self).remaining().skip(n as int + 1)),
            n >= old(self).remaining().len() ==> (r is None && final(self).remaining().len() == 0),
    {
        if n < self.back - self.front {
            let s = self.elems[self.front + n].clone();
            self.front += n + 1;
            proof {
                assert(s@ == old(self).remaining()[n as int]);
                assert(self.remaining() =~= old(self).remaining().skip(n as int + 1));
            }
            Some(s)
        } else {
            self.front = self.back;
            None
        }
    }

    /// How many elements remain, consuming the cursor.
    pub fn count(self) -> (n: usize)
        requires
            self.inv(),
        ensures
            n == self.remaining().len(),
    {
        self.back - self.front
    }

    /// How many elements remain to be yielded.
    pub fn len(&self) -> (n: usize)
        requires
            self.inv(),
        ensures
            n == self.remaining().len(),
    {
        self.back - self.front
    }

    /// Whether any element remains.
    pub fn is_empty(&self) -> (r: bool)
        requires
            self.inv(),
        ensures
            r == (self.remaining().len() == 0),
    {
        self.front == self.back
    }

    /// Collect every remaining element into a vector, consuming the cursor.
    pub fn into_vec(self) -> (r: Vec<String>)
        requires
            self.inv(),
        ensures
            r.deep_view() == self.remaining(),
    {
        let mut elems = self.elems;
        elems.truncate(self.back);
        let tail = elems.split_off(self.front);
        proof {
            assert(tail.deep_view() =~= self.remaining());
        }
        tail
    }
}

/// A cursor over every visible element.
pub fn seq_iter<T: StringSequenceView>(v: &T) -> (it: StringSequenceIter)
    requires
        v.inv(),
    ensures
        it.inv(),
        it.remaining() == v.velems(),
{
    let elems = seq_to_vec(v);
    let n = elems.len();
    let it = StringSequenceIter { elems, front: 0, back: n };
    proof {
        assert(it.remaining() =~= v.velems());
    }
    it
}

/// A cursor restricted to the elements the selector covers, after
/// normalization against the visible length.
pub fn seq_slice<T: StringSequenceView, R: ToRange>(v: &T, range: R) -> (it: StringSequenceIter)
    requires
        v.inv(),
        ({
            let sel = range.spec_to_range(v.velems().len() as int);
            sel.start <= sel.end <= v.velems().len()
        }),
    ensures
        it.inv(),
        it.remaining() == v.velems().subrange(
            range.spec_to_range(v.velems().len() as int).start as int,
            range.spec_to_range(v.velems().len() as int).end as int,
        ),
{
    let elems = seq_to_vec(v);
    let sel = range.to_range(elems.len());
    let it = StringSequenceIter { elems, front: sel.start, back: sel.end };
    it
}

/// Lexicographic comparison of two strings by Unicode scalar value.
pub open spec fn cmp_chars(a: Seq<char>, b: Seq<char>) -> core::cmp::Ordering
    decreases a.len(),
{
    if a.len() == 0 && b.len() == 0 {
        core::cmp::Ordering::Equal
    } else if a.len() == 0 {
        core::cmp::Ordering::Less
    } else if b.len() == 0 {
        core::cmp::Ordering::Greater
    } else if (a[0] as u32) < (b[0] as u32) {
        core::cmp::Ordering::Less
    } else if (a[0] as u32) > (b[0] as u32) {
        core::cmp::Ordering::Greater
    } else {
        cmp_chars(a.drop_first(), b.drop_first())
    }
}

/// Lexicographic comparison of two element sequences: elements are compared
/// in order, and a sequence that is a strict prefix of another orders first.
pub open spec fn cmp_elems(a: Seq<Seq<char>>, b: Seq<Seq<char>>) -> core::cmp::Ordering
    decreases a.len(),
{
    if a.len() == 0 && b.len() == 0 {
        core::cmp::Ordering::Equal
    } else if a.len() == 0 {
        core::cmp::Ordering::Less
    } else if b.len() == 0 {
        core::cmp::Ordering::Greater
    } else if cmp_chars(a[0], b[0]) == core::cmp::Ordering::Equal {
        cmp_elems(a.drop_first(), b.drop_first())
    } else {
        cmp_chars(a[0], b[0])
    }
}

/// Two strings compare as equal exactly when they are equal.
pub proof fn lemma_cmp_chars_eq(a: Seq<char>, b: Seq<char>)
    ensures
        (cmp_chars(a, b) == core::cmp::Ordering::Equal) <==> a == b,
    decreases a.len(),
{
    if a.len() == 0 && b.len() == 0 {
        assert(a =~= b);
    } else if a.len() > 0 && b.len() > 0 && (a[0] as u32) == (b[0] as u32) {
        vstd::utf8::char_u32_cast(a[0], a[0] as u32);
        vstd::utf8::char_u32_cast(b[0], b[0] as u32);
        assert(a[0] == b[0]);
        lemma_cmp_chars_eq(a.drop_first(), b.drop_first());
        if cmp_chars(a, b) == core::cmp::Ordering::Equal {
            assert(a =~= seq![a[0]] + a.drop_first());
            assert(b =~= seq![b[0]] + b.drop_first());
        }
        if a == b {
            assert(a.drop_first() =~= b.drop_first());
        }
    } else if a.len() > 0 && b.len() > 0 {
        assert(a[0] != b[0]);
    }
}

/// Two element sequences compare as equal exactly when they are equal.
pub proof fn lemma_cmp_elems_eq(a: Seq<Seq<char>>, b: Seq<Seq<char>>)
    ensures
        (cmp_elems(a, b) == core::cmp::Ordering::Equal) <==> a == b,
    decreases a.len(),
{
    if a.len() == 0 && b.len() == 0 {
        assert(a =~= b);
    } else if a.len() > 0 && b.len() > 0 {
        lemma_cmp_chars_eq(a[0], b[0]);
        lemma_cmp_elems_eq(a.drop_first(), b.drop_first());
        if cmp_elems(a, b) == core::cmp::Ordering::Equal {
            assert(a =~~= seq![a[0]] + a.drop_first());
            assert(b =~~= seq![b[0]] + b.drop_first());
        }
        if a == b {
            assert(a.drop_first() =~= b.drop_first());
            assert(a[0] == b[0]);
        }
    }
}

/// Comparing two strings in opposite orders gives opposite outcomes.
pub proof fn lemma_cmp_chars_antisym(a: Seq<char>, b: Seq<char>)
    ensures
        (cmp_chars(a, b) == core::cmp::Ordering::Less) <==> (cmp_chars(b, a)
            == core::cmp::Ordering::Greater),
    decreases a.len(),
{
    if a.len() > 0 && b.len() > 0 && (a[0] as u32) == (b[0] as u32) {
        lemma_cmp_chars_antisym(a.drop_first(), b.drop_first());
    }
}

/// Comparing two element sequences in opposite orders gives opposite
/// outcomes.
pub proof fn lemma_cmp_elems_antisym(a: Seq<Seq<char>>, b: Seq<Seq<char>>)
    ensures
        (cmp_elems(a, b) == core::cmp::Ordering::Less) <==> (cmp_elems(b, a)
            == core::cmp::Ordering::Greater),
    decreases a.len(),
{
    if a.len() > 0 && b.len() > 0 {
        lemma_cmp_chars_eq(a[0], b[0]);
        lemma_cmp_chars_eq(b[0], a[0]);
        lemma_cmp_chars_antisym(a[0], b[0]);
        lemma_cmp_chars_antisym(b[0], a[0]);
        lemma_cmp_elems_antisym(a.drop_first(), b.drop_first());
    }
}

/// Compare two string slices lexicographically by Unicode scalar value.
pub fn str_cmp(a: &str, b: &str) -> (o: core::cmp::Ordering)
    ensures
        o == cmp_chars(a@, b@),
{
    let an = a.unicode_len();
    let bn = b.unicode_len();
    let mut i: usize = 0;
    proof {
        assert(a@.skip(0) =~= a@);
        assert(b@.skip(0) =~= b@);
    }
    loop
        invariant
            an == a@.len(),
            bn == b@.len(),
            i <= an,
            i <= bn,
            cmp_chars(a@, b@) == cmp_chars(a@.skip(i as int), b@.skip(i as int)),
        ensures
            i == an || i == bn,
        decreases an - i,
    {
        if i == an || i == bn {
            break;
        }
        let ca = a.get_char(i) as u32;
        let cb = b.get_char(i) as u32;
        proof {
            assert(a@.skip(i as int)[0] == a@[i as int]);
            assert(b@.skip(i as int)[0] == b@[i as int]);
        }
        if ca < cb {
            return core::cmp::Ordering::Less;
        }
        if ca > cb {
            return core::cmp::Ordering::Greater;
        }
        proof {
            assert(a@.skip(i as int).drop_first() =~= a@.skip(i as int + 1));
            assert(b@.skip(i as int).drop_first() =~= b@.skip(i as int + 1));
        }
        i += 1;
    }
    proof {
        assert(a@.skip(i as int).len() == an - i);
        assert(b@.skip(i as int).len() == bn - i);
    }
    if an == bn {
        core::cmp::Ordering::Equal
    } else if an < bn {
        core::cmp::Ordering::Less
    } else {
        core::cmp::Ordering::Greater
    }
}

/// Compare two sequences lexicographically by elements.
pub fn seq_cmp<A: StringSequenceView, B: StringSequenceView>(a: &A, b: &B) -> (o:
    core::cmp::Ordering)
    requires
        a.inv(),
        b.inv(),
    ensures
        o == cmp_elems(a.velems(), b.velems()),
{
    proof {
        a.inv_tokens_wf();
        b.inv_tokens_wf();
    }
    let an = a.token_count();
    let bn = b.token_count();
    let mut i: usize = 0;
    proof {
        assert(a.velems().skip(0) =~= a.velems());
        assert(b.velems().skip(0) =~= b.velems());
    }
    loop
        invariant
            a.inv(),
            b.inv(),
            an == a.velems().len(),
            bn == b.velems().len(),
            an == a.tokens().len(),
            bn == b.tokens().len(),
            i <= an,
            i <= bn,
            cmp_elems(a.velems(), b.velems()) == cmp_elems(
                a.velems().skip(i as int),
                b.velems().skip(i as int),
            ),
        ensures
            i == an || i == bn,
        decreases an - i,
    {
        if i == an || i == bn {
            break;
        }
        let sa = elem_string(a, i);
        let sb = elem_string(b, i);
        let c = str_cmp(sa.as_str(), sb.as_str());
        proof {
            assert(a.velems().skip(i as int)[0] == a.velems()[i as int]);
            assert(b.velems().skip(i as int)[0] == b.velems()[i as int]);
            lemma_cmp_chars_eq(sa@, sb@);
        }
        match c {
            core::cmp::Ordering::Equal => {
                proof {
                    assert(a.velems().skip(i as int).drop_first() =~= a.velems().skip(i as int + 1));
                    assert(b.velems().skip(i as int).drop_first() =~= b.velems().skip(i as int + 1));
                }
                i += 1;
            },
            other => {
                return other;
            },
        }
    }
    proof {
        assert(a.velems().skip(i as int).len() == an - i);
        assert(b.velems().skip(i as int).len() == bn - i);
    }
    if an == bn {
        core::cmp::Ordering::Equal
    } else if an < bn {
        core::cmp::Ordering::Less
    } else {
        core::cmp::Ordering::Greater
    }
}

/// Whether two sequences hold equal elements in the same order.
pub fn seq_eq<A: StringSequenceView, B: StringSequenceView>(a: &A, b: &B) -> (r: bool)
    requires
        a.inv(),
        b.inv(),
    ensures
        r == (a.velems() == b.velems()),
{
    let o = seq_cmp(a, b);
    proof {
        lemma_cmp_elems_eq(a.velems(), b.velems());
    }
    matches!(o, core::cmp::Ordering::Equal)
}

/// `p` is a prefix of `v`, element for element.
pub open spec fn seq_starts_with(v: Seq<Seq<char>>, p: Seq<Seq<char>>) -> bool {
    p.len() <= v.len() && v.subrange(0, p.len() as int) == p
}

/// `p` is a suffix of `v`, element for element.
pub open spec fn seq_ends_with(v: Seq<Seq<char>>, p: Seq<Seq<char>>) -> bool {
    p.len() <= v.len() && v.subrange(v.len() - p.len(), v.len() as int) == p
}

/// `p` occurs in `v` as a contiguous run of elements. The empty run occurs
/// in every sequence.
pub open spec fn seq_contains_run(v: Seq<Seq<char>>, p: Seq<Seq<char>>) -> bool {
    exists|k: int|
        0 <= k <= v.len() - p.len() && #[trigger] v.subrange(k, k + p.len() as int) == p
}

/// Whether the elements `[k, k + other.len())` of `v` equal `other`,
/// element for element.
fn match_at<T: StringSequenceView>(v: &T, k: usize, other: &[&str]) -> (r: bool)
    requires
        v.inv(),
        k + other@.len() <= v.velems().len(),
    ensures
        r == (v.velems().subrange(k as int, k + other@.len()) == other.deep_view()),
{
    proof {
        v.inv_tokens_wf();
    }
    let ghost dv = other.deep_view();
    let ghost win = v.velems().subrange(k as int, k + other@.len());
    let n = v.token_count();
    let m = other.len();
    let mut j: usize = 0;
    loop
        invariant
            v.inv(),
            v.velems().len() == v.tokens().len(),
            dv == other.deep_view(),
            win == v.velems().subrange(k as int, k + other@.len()),
            m == other@.len(),
            n == v.velems().len(),
            k + m <= n,
            j <= m,
            forall|q: int| 0 <= q < j ==> win[q] == dv[q],
        ensures
            j == m || win[j as int] != dv[j as int],
            forall|q: int| 0 <= q < j ==> win[q] == dv[q],
        decreases m - j,
    {
        if j == m {
            break;
        }
        let s = elem_string(v, k + j);
        let t = String::from_str(other[j]);
        proof {
            assert(win[j as int] == v.velems()[k + j]);
            assert(dv[j as int] == other@[j as int]@);
        }
        if !s.eq(&t) {
            break;
        }
        j += 1;
    }
    if j == m {
        proof {
            assert(win =~= dv);
        }
        true
    } else {
        proof {
            assert(win != dv);
        }
        false
    }
}

/// Element-wise equality against a prefix of the same length as `other`.
pub fn seq_starts_with_exec<T: StringSequenceView>(v: &T, other: &[&str]) -> (r: bool)
    requires
        v.inv(),
    ensures
        r == seq_starts_with(v.velems(), other.deep_view()),
{
    proof {
        v.inv_tokens_wf();
    }
    if other.len() > v.token_count() {
        return false;
    }
    match_at(v, 0, other)
}

/// Element-wise equality against a suffix of the same length as `other`.
pub fn seq_ends_with_exec<T: StringSequenceView>(v: &T, other: &[&str]) -> (r: bool)
    requires
        v.inv(),
    ensures
        r == seq_ends_with(v.velems(), other.deep_view()),
{
    proof {
        v.inv_tokens_wf();
    }
    let n = v.token_count();
    if other.len() > n {
        return false;
    }
    match_at(v, n - other.len(), other)
}

/// A sliding-window scan for `other` over the visible elements. Returns true
/// immediately when `other` is empty.
pub fn seq_contains_exec<T: StringSequenceView>(v: &T, other: &[&str]) -> (r: bool)
    requires
        v.inv(),
    ensures
        r == seq_contains_run(v.velems(), other.deep_view()),
{
    proof {
        v.inv_tokens_wf();
    }
    let ghost dv = other.deep_view();
    let ghost ve = v.velems();
    let n = v.token_count();
    let m = other.len();
    if m > n {
        proof {
            assert(!seq_contains_run(ve, dv));
        }
        return false;
    }
    if m == 0 {
        proof {
            assert(ve.subrange(0, 0 + dv.len() as int) =~= dv);
            assert(seq_contains_run(ve, dv));
        }
        return true;
    }
    let mut k: usize = 0;
    loop
        invariant
            v.inv(),
            dv == other.deep_view(),
            ve == v.velems(),
            n == ve.len(),
            n == v.tokens().len(),
            m == other@.len(),
            1 <= m <= n,
            k <= n - m + 1,
            forall|q: int| 0 <= q < k ==> #[trigger] ve.subrange(q, q + m as int) != dv,
        ensures
            k <= n - m ==> ve.subrange(k as int, k + m as int) == dv,
            forall|q: int| 0 <= q < k ==> #[trigger] ve.subrange(q, q + m as int) != dv,
            k <= n - m || k == n - m + 1,
        decreases n - m + 1 - k,
    {
        if k > n - m {
            break;
        }
        if match_at(v, k, other) {
            break;
        }
        k += 1;
    }
    if k <= n - m {
        proof {
            assert(seq_contains_run(ve, dv));
        }
        true
    } else {
        proof {
            assert forall|q: int| 0 <= q <= ve.len() - dv.len() implies #[trigger] ve.subrange(
                q,
                q + dv.len() as int,
            ) != dv by {
                assert(ve.subrange(q, q + m as int) != dv);
            }
        }
        false
    }
}

} // verus!
