//! The two packed representations: [`StringSequence`], an exclusively owned
//! immutable sequence, and [`SharedStringSequence`], a reference-counted
//! sequence with cheap sub-range windows over the same allocation.

use vstd::prelude::*;

use std::sync::Arc;

use crate::base_trait::cmp_elems;
use crate::base_trait::concat_of;
use crate::base_trait::elems_of;
use crate::base_trait::lemma_end_monotone;
use crate::base_trait::seq_contains_exec;
use crate::base_trait::seq_contains_run;
use crate::base_trait::seq_cmp;
use crate::base_trait::seq_ends_with;
use crate::base_trait::seq_ends_with_exec;
use crate::base_trait::seq_eq;
use crate::base_trait::seq_get;
use crate::base_trait::seq_iter;
use crate::base_trait::seq_len;
use crate::base_trait::seq_slice;
use crate::base_trait::seq_starts_with;
use crate::base_trait::seq_starts_with_exec;
use crate::base_trait::seq_text;
use crate::base_trait::seq_to_vec;
use crate::base_trait::StringSequenceIter;
use crate::base_trait::tokens_wf;
use crate::base_trait::IndexRange;
use crate::base_trait::StringSequenceView;
use crate::base_trait::ToRange;
use crate::base_trait::TokenRange;
use crate::packed::char_of_u32;
use crate::packed::encode;
use crate::packed::packed_text;
use crate::packed::packed_text_len;
use crate::packed::packed_tokens;
use crate::packed::packed_unit;
use crate::packed::packed_wf;
use crate::packed::split_hi;
use crate::packed::split_lo;

verus! {

/// An immutable, exclusively owned sequence of strings held in one packed
/// allocation: `index_count` index words followed by the character arena.
#[derive(Hash)]
pub struct StringSequence {
    raw: Vec<u64>,
    index_count: usize,
}

impl StringSequenceView for StringSequence {
    closed spec fn arena(&self) -> Seq<char> {
        packed_text(self.raw@, self.index_count as int)
    }

    closed spec fn tokens(&self) -> Seq<TokenRange> {
        packed_tokens(self.raw@, self.index_count as int)
    }

    closed spec fn inv(&self) -> bool {
        packed_wf(self.raw@, self.index_count as int)
    }

    open spec fn velems(&self) -> Seq<Seq<char>> {
        elems_of(self.arena(), self.tokens())
    }

    proof fn inv_tokens_wf(&self) {
        lemma_packed_tokens_wf(self.raw@, self.index_count as int);
    }

    fn token_count(&self) -> (n: usize) {
        self.index_count
    }

    fn token_at(&self, i: usize) -> (t: TokenRange) {
        let w = self.raw[i];
        TokenRange { start: split_lo(w), end: split_hi(w) }
    }

    fn char_at(&self, j: usize) -> (c: char) {
        packed_char_at(&self.raw, self.index_count, j)
    }
}

/// A well-formed packed array decodes to a well-formed token sequence.
pub proof fn lemma_packed_tokens_wf(raw: Seq<u64>, index_count: int)
    requires
        packed_wf(raw, index_count),
    ensures
        tokens_wf(packed_tokens(raw, index_count), packed_text_len(raw, index_count)),
        packed_tokens(raw, index_count).len() <= u32::MAX,
{
    let toks = packed_tokens(raw, index_count);
    let clen = packed_text_len(raw, index_count);
    assert forall|i: int| 0 <= i < toks.len() implies toks[i].start <= toks[i].end && toks[i].end
        <= clen by {
        lemma_end_monotone(toks, i, index_count - 1);
    }
}

/// Read the arena character at position `j` out of a packed array.
fn packed_char_at(raw: &Vec<u64>, index_count: usize, j: usize) -> (c: char)
    requires
        packed_wf(raw@, index_count as int),
        j < packed_text_len(raw@, index_count as int),
    ensures
        c == packed_text(raw@, index_count as int)[j as int],
{
    let n = raw.len();
    assert(index_count + j as int / 2 < n);
    let w = raw[index_count + j / 2];
    let v = if j % 2 == 0 {
        split_lo(w)
    } else {
        split_hi(w)
    };
    assert(v == packed_unit(raw@, index_count as int, j as int));
    let c = char_of_u32(v);
    proof {
        vstd::utf8::char_u32_cast(c, v);
    }
    c
}

impl StringSequence {
    /// Pack an index and an arena into a single owned allocation.
    pub(crate) fn from_parts(index: &Vec<TokenRange>, text: &Vec<char>) -> (r: Self)
        requires
            index@.len() <= u32::MAX,
            text@.len() <= u32::MAX,
            index@.len() > 0 ==> index@[0].start == 0,
            forall|i: int| 0 <= i < index@.len() ==> index@[i].start <= index@[i].end,
            forall|i: int| 0 <= i && i + 1 < index@.len() ==> index@[i].end == index@[i + 1].start,
            text@.len() == if index@.len() == 0 { 0int } else { index@.last().end as int },
        ensures
            r.inv(),
            r.tokens() == index@,
            r.arena() == text@,
            r.velems() == elems_of(text@, index@),
    {
        let raw = encode(index, text);
        StringSequence { raw, index_count: index.len() }
    }

    /// Convert into a reference-counted sequence without copying the
    /// allocation.
    pub fn into_shared(self) -> (r: SharedStringSequence)
        requires
            self.inv(),
        ensures
            r.inv(),
            r.velems() == self.velems(),
            r.arena() == self.arena(),
            r.tokens() == self.tokens(),
            r.full_elems() == r.velems(),
            r.window().start == 0 && r.window().end == r.full_tokens().len(),
    {
        proof {
            self.inv_tokens_wf();
        }
        let count = self.index_count;
        let r = SharedStringSequence {
            raw: Arc::new(self.raw),
            index_count: count,
            token_range: TokenRange { start: 0, end: count as u32 },
        };
        proof {
            assert(r.tokens() =~= packed_tokens(r.raw@, r.index_count as int));
        }
        r
    }
}

/// A reference-counted packed sequence of strings. Clones share one
/// allocation; a clone may narrow its view to a window of the elements
/// without touching the allocation.
pub struct SharedStringSequence {
    raw: Arc<Vec<u64>>,
    index_count: usize,
    /// The visible window `[start, end)` over the full token index.
    token_range: TokenRange,
}

impl StringSequenceView for SharedStringSequence {
    closed spec fn arena(&self) -> Seq<char> {
        packed_text(self.raw@, self.index_count as int)
    }

    closed spec fn tokens(&self) -> Seq<TokenRange> {
        self.full_tokens().subrange(
            self.token_range.start as int,
            self.token_range.end as int,
        )
    }

    closed spec fn inv(&self) -> bool {
        &&& packed_wf(self.raw@, self.index_count as int)
        &&& self.token_range.start <= self.token_range.end
        &&& self.token_range.end <= self.index_count
    }

    open spec fn velems(&self) -> Seq<Seq<char>> {
        elems_of(self.arena(), self.tokens())
    }

    proof fn inv_tokens_wf(&self) {
        lemma_packed_tokens_wf(self.raw@, self.index_count as int);
        let full = self.full_tokens();
        let toks = self.tokens();
        let off = self.token_range.start as int;
        let clen = self.arena().len() as int;
        assert forall|i: int| 0 <= i < toks.len() implies toks[i].start <= toks[i].end
            && toks[i].end <= clen by {
            assert(toks[i] == full[off + i]);
            assert(full[off + i].start <= full[off + i].end && full[off + i].end <= clen);
        }
        assert forall|i: int| 0 <= i && i + 1 < toks.len() implies toks[i].end == toks[i + 1].start by {
            assert(toks[i] == full[off + i]);
            assert(toks[i + 1] == full[off + i + 1]);
            assert(full[off + i].end == full[off + i + 1].start);
        }
    }

    fn token_count(&self) -> (n: usize) {
        (self.token_range.end - self.token_range.start) as usize
    }

    fn token_at(&self, i: usize) -> (t: TokenRange) {
        let w = self.raw[self.token_range.start as usize + i];
        TokenRange { start: split_lo(w), end: split_hi(w) }
    }

    fn char_at(&self, j: usize) -> (c: char) {
        packed_char_at(&self.raw, self.index_count, j)
    }
}

impl SharedStringSequence {
    /// Every token the backing allocation stores, ignoring the window.
    pub closed spec fn full_tokens(&self) -> Seq<TokenRange> {
        packed_tokens(self.raw@, self.index_count as int)
    }

    /// The window of visible element positions over the full token index.
    pub closed spec fn window(&self) -> IndexRange {
        IndexRange {
            start: self.token_range.start as usize,
            end: self.token_range.end as usize,
        }
    }

    /// Every element the backing allocation stores, ignoring the window.
    pub open spec fn full_elems(&self) -> Seq<Seq<char>> {
        elems_of(self.arena(), self.full_tokens())
    }

    /// The visible elements are a window of the stored elements.
    pub proof fn window_facts(&self)
        requires
            self.inv(),
        ensures
            self.window().start <= self.window().end <= self.full_elems().len(),
            self.velems() == self.full_elems().subrange(
                self.window().start as int,
                self.window().end as int,
            ),
    {
        assert(self.velems() =~= self.full_elems().subrange(
            self.window().start as int,
            self.window().end as int,
        ));
    }

    /// Narrow the visible window to the given sub-range of the currently
    /// visible elements. The selector is normalized against the current
    /// visible length; the result shares this sequence's allocation.
    pub fn subsequence<R: ToRange>(&self, range: R) -> (r: Self)
        requires
            self.inv(),
            ({
                let sel = range.spec_to_range(self.tokens().len() as int);
                sel.start <= sel.end <= self.tokens().len()
            }),
        ensures
            r.inv(),
            r.velems() == self.velems().subrange(
                range.spec_to_range(self.tokens().len() as int).start as int,
                range.spec_to_range(self.tokens().len() as int).end as int,
            ),
            r.full_tokens() == self.full_tokens(),
            r.arena() == self.arena(),
            r.window().start == self.window().start + range.spec_to_range(
                self.tokens().len() as int,
            ).start,
            r.window().end == self.window().start + range.spec_to_range(
                self.tokens().len() as int,
            ).end,
    {
        let visible = (self.token_range.end - self.token_range.start) as usize;
        let sel = range.to_range(visible);
        let lo = self.token_range.start + sel.start as u32;
        let hi = self.token_range.start + sel.end as u32;
        let r = SharedStringSequence {
            raw: self.raw.clone(),
            index_count: self.index_count,
            token_range: TokenRange { start: lo, end: hi },
        };
        proof {
            let a = sel.start as int;
            let b = sel.end as int;
            assert(r.tokens() =~= self.tokens().subrange(a, b));
            assert(r.velems() =~= self.velems().subrange(a, b));
        }
        r
    }

    /// Restore the full view over every element the backing allocation
    /// stores, undoing any window narrowing.
    pub fn into_full_sequence(self) -> (r: Self)
        requires
            self.inv(),
        ensures
            r.inv(),
            r.velems() == self.full_elems(),
            r.full_tokens() == self.full_tokens(),
            r.arena() == self.arena(),
    {
        proof {
            self.inv_tokens_wf();
        }
        let count = self.index_count;
        let r = SharedStringSequence {
            raw: self.raw,
            index_count: count,
            token_range: TokenRange { start: 0, end: count as u32 },
        };
        proof {
            assert(r.tokens() =~= packed_tokens(r.raw@, r.index_count as int));
        }
        r
    }
}

impl Clone for StringSequence {
    /// A clone sees the same elements as the original.
    fn clone(&self) -> (r: Self)
        ensures
            r.arena() == self.arena(),
            r.tokens() == self.tokens(),
            r.velems() == self.velems(),
            r.inv() == self.inv(),
    {
        let r = StringSequence { raw: self.raw.clone(), index_count: self.index_count };
        proof {
            assert(r.raw@ =~= self.raw@);
        }
        r
    }
}

impl Clone for SharedStringSequence {
    /// A clone shares the same allocation and sees the same elements.
    fn clone(&self) -> (r: Self)
        ensures
            r == *self,
    {
        SharedStringSequence {
            raw: self.raw.clone(),
            index_count: self.index_count,
            token_range: self.token_range,
        }
    }
}


impl StringSequence {
    /// A cursor over every visible element, in order.
    pub fn iter(&self) -> (it: StringSequenceIter)
        requires
            self.inv(),
        ensures
            it.inv(),
            it.remaining() == self.velems(),
    {
        seq_iter(self)
    }

    /// A cursor over the elements the selector covers, after normalization
    /// against the visible length.
    pub fn slice<R: ToRange>(&self, range: R) -> (it: StringSequenceIter)
        requires
            self.inv(),
            ({
                let sel = range.spec_to_range(self.velems().len() as int);
                sel.start <= sel.end <= self.velems().len()
            }),
        ensures
            it.inv(),
            it.remaining() == self.velems().subrange(
                range.spec_to_range(self.velems().len() as int).start as int,
                range.spec_to_range(self.velems().len() as int).end as int,
            ),
    {
        seq_slice(self, range)
    }

    /// The element at `index`, or `None` when out of bounds.
    pub fn get(&self, index: usize) -> (r: Option<String>)
        requires
            self.inv(),
        ensures
            index < self.velems().len() ==> (r matches Some(s) && s@ == self.velems()[
                index as int
            ]),
            index >= self.velems().len() ==> r is None,
    {
        seq_get(self, index)
    }

    /// The full text: every element concatenated in order, no separators.
    pub fn text(&self) -> (r: String)
        requires
            self.inv(),
        ensures
            r@ == concat_of(self.velems()),
    {
        seq_text(self)
    }

    /// The first element, or `None` when the sequence is empty.
    pub fn first(&self) -> (r: Option<String>)
        requires
            self.inv(),
        ensures
            self.velems().len() > 0 ==> (r matches Some(s) && s@ == self.velems()[0]),
            self.velems().len() == 0 ==> r is None,
    {
        seq_get(self, 0)
    }

    /// The last element, or `None` when the sequence is empty.
    pub fn last(&self) -> (r: Option<String>)
        requires
            self.inv(),
        ensures
            self.velems().len() > 0 ==> (r matches Some(s) && s@ == self.velems().last()),
            self.velems().len() == 0 ==> r is None,
    {
        let n = seq_len(self);
        if n == 0 {
            None
        } else {
            seq_get(self, n - 1)
        }
    }

    /// How many elements are visible.
    pub fn len(&self) -> (n: usize)
        requires
            self.inv(),
        ensures
            n == self.velems().len(),
    {
        seq_len(self)
    }

    /// Whether no element is visible.
    pub fn is_empty(&self) -> (r: bool)
        requires
            self.inv(),
        ensures
            r == (self.velems().len() == 0),
    {
        seq_len(self) == 0
    }

    /// Element-wise equality against a prefix of `other`'s length.
    pub fn starts_with(&self, other: &[&str]) -> (r: bool)
        requires
            self.inv(),
        ensures
            r == seq_starts_with(self.velems(), other.deep_view()),
    {
        seq_starts_with_exec(self, other)
    }

    /// Element-wise equality against a suffix of `other`'s length.
    pub fn ends_with(&self, other: &[&str]) -> (r: bool)
        requires
            self.inv(),
        ensures
            r == seq_ends_with(self.velems(), other.deep_view()),
    {
        seq_ends_with_exec(self, other)
    }

    /// Whether `other` occurs as a contiguous run of whole elements. An
    /// empty `other` is contained in every sequence.
    pub fn contains(&self, other: &[&str]) -> (r: bool)
        requires
            self.inv(),
        ensures
            r == seq_contains_run(self.velems(), other.deep_view()),
    {
        seq_contains_exec(self, other)
    }

    /// Every visible element, copied into owned strings in order.
    pub fn to_vec(&self) -> (r: Vec<String>)
        requires
            self.inv(),
        ensures
            r.deep_view() == self.velems(),
    {
        seq_to_vec(self)
    }

    /// Whether this sequence and `other` hold equal elements in the same
    /// order, whatever representation `other` uses.
    pub fn eq_seq<T: StringSequenceView>(&self, other: &T) -> (r: bool)
        requires
            self.inv(),
            other.inv(),
        ensures
            r == (self.velems() == other.velems()),
    {
        seq_eq(self, other)
    }

    /// Lexicographic comparison by elements against `other`, whatever
    /// representation `other` uses.
    pub fn cmp_seq<T: StringSequenceView>(&self, other: &T) -> (o: core::cmp::Ordering)
        requires
            self.inv(),
            other.inv(),
        ensures
            o == cmp_elems(self.velems(), other.velems()),
    {
        seq_cmp(self, other)
    }
}


impl SharedStringSequence {
    /// A cursor over every visible element, in order.
    pub fn iter(&self) -> (it: StringSequenceIter)
        requires
            self.inv(),
        ensures
            it.inv(),
            it.remaining() == self.velems(),
    {
        seq_iter(self)
    }

    /// A cursor over the elements the selector covers, after normalization
    /// against the visible length.
    pub fn slice<R: ToRange>(&self, range: R) -> (it: StringSequenceIter)
        requires
            self.inv(),
            ({
                let sel = range.spec_to_range(self.velems().len() as int);
                sel.start <= sel.end <= self.velems().len()
            }),
        ensures
            it.inv(),
            it.remaining() == self.velems().subrange(
                range.spec_to_range(self.velems().len() as int).start as int,
                range.spec_to_range(self.velems().len() as int).end as int,
            ),
    {
        seq_slice(self, range)
    }

    /// The element at `index`, or `None` when out of bounds.
    pub fn get(&self, index: usize) -> (r: Option<String>)
        requires
            self.inv(),
        ensures
            index < self.velems().len() ==> (r matches Some(s) && s@ == self.velems()[
                index as int
            ]),
            index >= self.velems().len() ==> r is None,
    {
        seq_get(self, index)
    }

    /// The full text: every element concatenated in order, no separators.
    pub fn text(&self) -> (r: String)
        requires
            self.inv(),
        ensures
            r@ == concat_of(self.velems()),
    {
        seq_text(self)
    }

    /// The first element, or `None` when the sequence is empty.
    pub fn first(&self) -> (r: Option<String>)
        requires
            self.inv(),
        ensures
            self.velems().len() > 0 ==> (r matches Some(s) && s@ == self.velems()[0]),
            self.velems().len() == 0 ==> r is None,
    {
        seq_get(self, 0)
    }

    /// The last element, or `None` when the sequence is empty.
    pub fn last(&self) -> (r: Option<String>)
        requires
            self.inv(),
        ensures
            self.velems().len() > 0 ==> (r matches Some(s) && s@ == self.velems().last()),
            self.velems().len() == 0 ==> r is None,
    {
        let n = seq_len(self);
        if n == 0 {
            None
        } else {
            seq_get(self, n - 1)
        }
    }

    /// How many elements are visible.
    pub fn len(&self) -> (n: usize)
        requires
            self.inv(),
        ensures
            n == self.velems().len(),
    {
        seq_len(self)
    }

    /// Whether no element is visible.
    pub fn is_empty(&self) -> (r: bool)
        requires
            self.inv(),
        ensures
            r == (self.velems().len() == 0),
    {
        seq_len(self) == 0
    }

    /// Element-wise equality against a prefix of `other`'s length.
    pub fn starts_with(&self, other: &[&str]) -> (r: bool)
        requires
            self.inv(),
        ensures
            r == seq_starts_with(self.velems(), other.deep_view()),
    {
        seq_starts_with_exec(self, other)
    }

    /// Element-wise equality against a suffix of `other`'s length.
    pub fn ends_with(&self, other: &[&str]) -> (r: bool)
        requires
            self.inv(),
        ensures
            r == seq_ends_with(self.velems(), other.deep_view()),
    {
        seq_ends_with_exec(self, other)
    }

    /// Whether `other` occurs as a contiguous run of whole elements. An
    /// empty `other` is contained in every sequence.
    pub fn contains(&self, other: &[&str]) -> (r: bool)
        requires
            self.inv(),
        ensures
            r == seq_contains_run(self.velems(), other.deep_view()),
    {
        seq_contains_exec(self, other)
    }

    /// Every visible element, copied into owned strings in order.
    pub fn to_vec(&self) -> (r: Vec<String>)
        requires
            self.inv(),
        ensures
            r.deep_view() == self.velems(),
    {
        seq_to_vec(self)
    }

    /// Whether this sequence and `other` hold equal elements in the same
    /// order, whatever representation `other` uses.
    pub fn eq_seq<T: StringSequenceView>(&self, other: &T) -> (r: bool)
        requires
            self.inv(),
            other.inv(),
        ensures
            r == (self.velems() == other.velems()),
    {
        seq_eq(self, other)
    }

    /// Lexicographic comparison by elements against `other`, whatever
    /// representation `other` uses.
    pub fn cmp_seq<T: StringSequenceView>(&self, other: &T) -> (o: core::cmp::Ordering)
        requires
            self.inv(),
            other.inv(),
        ensures
            o == cmp_elems(self.velems(), other.velems()),
    {
        seq_cmp(self, other)
    }
}

} // verus!
