//! The growable representation: two independently growable containers (a
//! character arena and a token index) supporting push, insert, remove and
//! drain, convertible into the packed forms.

use vstd::prelude::*;
use vstd::std_specs::iter::IteratorSpec;
use vstd::string::StrSliceExecFns;

use crate::base_trait::cmp_elems;
use crate::base_trait::concat_of;
use crate::base_trait::elem_string;
use crate::base_trait::elems_of;
use crate::base_trait::seq_contains_exec;
use crate::base_trait::seq_contains_run;
use crate::base_trait::seq_cmp;
use crate::base_trait::seq_ends_with;
use crate::base_trait::seq_ends_with_exec;
use crate::base_trait::seq_eq;
use crate::base_trait::seq_get;
use crate::base_trait::seq_iter;
use crate::base_trait::seq_len;
use crate::base_trait::seq_slice;
use crate::base_trait::seq_starts_with;
use crate::base_trait::seq_starts_with_exec;
use crate::base_trait::seq_text;
use crate::base_trait::seq_to_vec;
use crate::base_trait::StringSequenceIter;
use crate::base_trait::exact_wf;
use crate::base_trait::lemma_elems_prefix;
use crate::base_trait::lemma_end_monotone;
use crate::base_trait::lemma_total_chars_prefix;
use crate::base_trait::lemma_total_chars_step;
use crate::base_trait::total_chars;
use crate::base_trait::StringSequenceView;
use crate::base_trait::ToRange;
use crate::base_trait::TokenRange;
use crate::view::SharedStringSequence;
use crate::view::StringSequence;

verus! {

/// Collect the characters of a string slice into a vector, in one pass.
pub(crate) fn str_to_chars(s: &str) -> (v: Vec<char>)
    ensures
        v@ == s@,
{
    broadcast use vstd::string::axiom_spec_iter;

    let mut it = s.chars();
    let mut v: Vec<char> = Vec::new();
    proof {
        assert(v@ + it.remaining() =~= s@);
    }
    loop
        invariant
            it.obeys_prophetic_iter_laws(),
            v@.len() <= s@.len(),
            v@ + it.remaining() == s@,
        ensures
            v@ == s@,
        decreases s@.len() - v@.len(),
    {
        match it.next() {
            Some(c) => {
                v.push(c);
                proof {
                    assert(v@ + it.remaining() =~= s@);
                }
            },
            None => {
                proof {
                    assert(v@ =~= v@ + it.remaining());
                }
                break;
            },
        }
    }
    v
}

/// Relies on `Vec::capacity`: the capacity is at least the length.
#[verifier::external_body]
fn vec_capacity<T>(v: &Vec<T>) -> (c: usize)
    ensures
        c >= v@.len(),
{
    v.capacity()
}

/// A growable sequence of strings: a character arena and a token index that
/// grow independently, so elements can be appended, inserted, removed and
/// drained in place.
#[derive(Hash)]
pub struct MutableStringSequence {
    /// The arena: every element's characters concatenated in order.
    text: Vec<char>,
    /// One half-open range into `text` per element.
    index: Vec<TokenRange>,
}

impl StringSequenceView for MutableStringSequence {
    closed spec fn arena(&self) -> Seq<char> {
        self.text@
    }

    closed spec fn tokens(&self) -> Seq<TokenRange> {
        self.index@
    }

    closed spec fn inv(&self) -> bool {
        exact_wf(self.text@, self.index@)
    }

    open spec fn velems(&self) -> Seq<Seq<char>> {
        elems_of(self.arena(), self.tokens())
    }

    proof fn inv_tokens_wf(&self) {
    }

    fn token_count(&self) -> (n: usize) {
        self.index.len()
    }

    fn token_at(&self, i: usize) -> (t: TokenRange) {
        self.index[i]
    }

    fn char_at(&self, j: usize) -> (c: char) {
        self.text[j]
    }
}


/// Shared hypotheses of the insertion lemmas: the old pair is exactly
/// tiled, `value`'s text is spliced into the arena at `off` (the start of
/// the old element `ni`, or the arena's end when `ni` is the length), the
/// new token stands at `ni`, and the tokens after it are shifted up by
/// `value`'s length.
pub open spec fn insert_shape(
    otext: Seq<char>,
    otoks: Seq<TokenRange>,
    ntext: Seq<char>,
    ntoks: Seq<TokenRange>,
    ni: int,
    off: int,
    value: Seq<char>,
) -> bool {
    &&& exact_wf(otext, otoks)
    &&& 0 <= ni <= otoks.len()
    &&& otoks.len() + 1 <= u32::MAX
    &&& otext.len() + value.len() <= u32::MAX
    &&& off == if ni < otoks.len() {
        otoks[ni].start as int
    } else {
        otext.len() as int
    }
    &&& ntext == otext.subrange(0, off) + value + otext.subrange(off, otext.len() as int)
    &&& ntoks.len() == otoks.len() + 1
    &&& forall|i: int| 0 <= i < ni ==> ntoks[i] == otoks[i]
    &&& ntoks[ni].start == off && ntoks[ni].end == off + value.len()
    &&& forall|i: int|
        ni < i < ntoks.len() ==> (#[trigger] ntoks[i]).start == otoks[i - 1].start + value.len()
            && ntoks[i].end == otoks[i - 1].end + value.len()
}

/// Splicing one element in at position `ni` yields the old elements with
/// `value` inserted at `ni`.
#[verifier::rlimit(100)]
proof fn lemma_insert_elems_only(
    otext: Seq<char>,
    otoks: Seq<TokenRange>,
    ntext: Seq<char>,
    ntoks: Seq<TokenRange>,
    ni: int,
    off: int,
    value: Seq<char>,
)
    requires
        insert_shape(otext, otoks, ntext, ntoks, ni, off, value),
    ensures
        elems_of(ntext, ntoks) == elems_of(otext, otoks).insert(ni, value),
{
    let n = otoks.len() as int;
    let olen = otext.len() as int;
    let vl = value.len() as int;
    assert(ntext.len() == olen + vl);
    assert forall|i: int| 0 <= i < ni implies otoks[i].end <= off by {
        if ni < n {
            lemma_end_monotone(otoks, i, ni - 1);
        }
    }
    assert forall|i: int| ni <= i < n implies off <= (#[trigger] otoks[i]).start by {
        lemma_end_monotone(otoks, ni, i);
    }
    let expected = elems_of(otext, otoks).insert(ni, value);
    assert forall|i: int| 0 <= i < ntoks.len() implies elems_of(ntext, ntoks)[i] == expected[i] by {
        if i < ni {
            assert(ntoks[i] == otoks[i]);
            assert(ntext.subrange(otoks[i].start as int, otoks[i].end as int) =~= otext.subrange(
                otoks[i].start as int,
                otoks[i].end as int,
            ));
        } else if i == ni {
            assert(ntext.subrange(off, off + vl) =~= value);
        } else {
            let st = otoks[i - 1].start as int;
            let e = otoks[i - 1].end as int;
            assert(ntoks[i].start == st + vl && ntoks[i].end == e + vl);
            assert forall|m: int| st <= m < e implies ntext[m + vl] == #[trigger] otext[m] by {
                assert(off <= m < olen);
            }
            assert(ntext.subrange(st + vl, e + vl) =~= otext.subrange(st, e));
        }
    }
    assert(elems_of(ntext, ntoks) =~= expected);
}

/// Splicing one element in at position `ni` keeps the pair exactly tiled.
#[verifier::rlimit(100)]
proof fn lemma_insert_wf(
    otext: Seq<char>,
    otoks: Seq<TokenRange>,
    ntext: Seq<char>,
    ntoks: Seq<TokenRange>,
    ni: int,
    off: int,
    value: Seq<char>,
)
    requires
        insert_shape(otext, otoks, ntext, ntoks, ni, off, value),
    ensures
        exact_wf(ntext, ntoks),
{
    let n = otoks.len() as int;
    let olen = otext.len() as int;
    let vl = value.len() as int;
    assert(ntext.len() == olen + vl);
    assert forall|i: int| ni <= i < n implies off <= (#[trigger] otoks[i]).start by {
        lemma_end_monotone(otoks, ni, i);
    }
    assert forall|i: int| 0 <= i < ntoks.len() implies (#[trigger] ntoks[i]).start <= ntoks[i].end
        && ntoks[i].end <= ntext.len() by {
        if i > ni {
            assert(otoks[i - 1].start <= otoks[i - 1].end && otoks[i - 1].end <= olen);
        }
    }
    assert forall|i: int| 0 <= i && i + 1 < ntoks.len() implies ntoks[i].end == ntoks[
        i + 1
    ].start by {
        if i + 1 < ni {
            assert(otoks[i].end == otoks[i + 1].start);
        } else if i + 1 == ni {
            assert(ntoks[i] == otoks[i]);
            if ni < n {
                assert(otoks[ni - 1].end == otoks[ni].start);
            }
        } else if i == ni {
            assert(ntoks[i + 1].start == otoks[i].start + vl);
        } else {
            assert(otoks[i - 1].end == otoks[i].start);
        }
    }
    if ni == 0 {
        if n > 0 {
            assert(ntoks[0].start == off && off == otoks[0].start);
        } else {
            assert(ntoks[0].start == off && off == 0);
        }
    }
    if ni == n {
        assert(ntoks.last().end == olen + vl);
    } else {
        assert(ntoks.last().end == otoks.last().end + vl);
    }
}

/// Splicing one element's text into the arena at position `off` and its
/// token into the index at position `ni`, shifting the later tokens, yields
/// the element sequence with the new element inserted at `ni`, exactly tiled
/// again.
proof fn lemma_insert_elems(
    otext: Seq<char>,
    otoks: Seq<TokenRange>,
    ntext: Seq<char>,
    ntoks: Seq<TokenRange>,
    ni: int,
    off: int,
    value: Seq<char>,
)
    requires
        insert_shape(otext, otoks, ntext, ntoks, ni, off, value),
    ensures
        exact_wf(ntext, ntoks),
        elems_of(ntext, ntoks) == elems_of(otext, otoks).insert(ni, value),
{
    lemma_insert_elems_only(otext, otoks, ntext, ntoks, ni, off, value);
    lemma_insert_wf(otext, otoks, ntext, ntoks, ni, off, value);
}

/// Shared hypotheses of the span-removal lemmas: the old pair is exactly
/// tiled, `[lo, hi)` is a non-empty token run, the new arena is the old one
/// with that run's span cut out, and the new tokens are the old ones outside
/// the run, those after it shifted down by the span's length.
pub open spec fn remove_span_shape(
    otext: Seq<char>,
    otoks: Seq<TokenRange>,
    ntext: Seq<char>,
    ntoks: Seq<TokenRange>,
    lo: int,
    hi: int,
) -> bool {
    &&& exact_wf(otext, otoks)
    &&& 0 <= lo < hi <= otoks.len()
    &&& ntext == otext.subrange(0, otoks[lo].start as int) + otext.subrange(
        otoks[hi - 1].end as int,
        otext.len() as int,
    )
    &&& ntoks.len() == otoks.len() - (hi - lo)
    &&& forall|i: int| 0 <= i < lo ==> ntoks[i] == otoks[i]
    &&& forall|i: int|
        lo <= i < ntoks.len() ==> (#[trigger] ntoks[i]).start == otoks[i + (hi - lo)].start - (
        otoks[hi - 1].end - otoks[lo].start) && ntoks[i].end == otoks[i + (hi - lo)].end - (
        otoks[hi - 1].end - otoks[lo].start)
}

/// Removing the token run `[lo, hi)` leaves exactly the elements outside it.
#[verifier::rlimit(100)]
proof fn lemma_remove_span_elems(
    otext: Seq<char>,
    otoks: Seq<TokenRange>,
    ntext: Seq<char>,
    ntoks: Seq<TokenRange>,
    lo: int,
    hi: int,
)
    requires
        remove_span_shape(otext, otoks, ntext, ntoks, lo, hi),
    ensures
        elems_of(ntext, ntoks) == elems_of(otext, otoks).subrange(0, lo) + elems_of(
            otext,
            otoks,
        ).subrange(hi, otoks.len() as int),
{
    let n = otoks.len() as int;
    let olen = otext.len() as int;
    let ts = otoks[lo].start as int;
    let te = otoks[hi - 1].end as int;
    lemma_end_monotone(otoks, lo, hi - 1);
    let rl = te - ts;
    assert(ntext.len() == olen - rl);
    assert forall|i: int| 0 <= i < lo implies otoks[i].end <= ts by {
        lemma_end_monotone(otoks, i, lo - 1);
    }
    assert forall|i: int| hi <= i < n implies te <= (#[trigger] otoks[i]).start by {
        lemma_end_monotone(otoks, hi, i);
    }
    let expected = elems_of(otext, otoks).subrange(0, lo) + elems_of(otext, otoks).subrange(hi, n);
    assert forall|i: int| 0 <= i < ntoks.len() implies elems_of(ntext, ntoks)[i] == expected[i] by {
        if i < lo {
            assert(ntoks[i] == otoks[i]);
            assert(ntext.subrange(otoks[i].start as int, otoks[i].end as int) =~= otext.subrange(
                otoks[i].start as int,
                otoks[i].end as int,
            ));
        } else {
            let st = otoks[i + (hi - lo)].start as int;
            let e = otoks[i + (hi - lo)].end as int;
            assert(ntoks[i].start == st - rl && ntoks[i].end == e - rl);
            assert forall|m: int| st <= m < e implies ntext[m - rl] == #[trigger] otext[m] by {
                assert(te <= m < olen);
                assert(ntext[ts + (m - te)] == otext[m]);
            }
            assert(ntext.subrange(st - rl, e - rl) =~= otext.subrange(st, e));
            assert(expected[i] == elems_of(otext, otoks)[i + (hi - lo)]);
        }
    }
    assert(elems_of(ntext, ntoks) =~= expected);
}

/// Removing the token run `[lo, hi)` keeps the pair exactly tiled.
#[verifier::rlimit(100)]
proof fn lemma_remove_span_wf(
    otext: Seq<char>,
    otoks: Seq<TokenRange>,
    ntext: Seq<char>,
    ntoks: Seq<TokenRange>,
    lo: int,
    hi: int,
)
    requires
        remove_span_shape(otext, otoks, ntext, ntoks, lo, hi),
    ensures
        exact_wf(ntext, ntoks),
{
    let n = otoks.len() as int;
    let olen = otext.len() as int;
    let ts = otoks[lo].start as int;
    let te = otoks[hi - 1].end as int;
    lemma_end_monotone(otoks, lo, hi - 1);
    let rl = te - ts;
    assert(ntext.len() == olen - rl);
    assert forall|i: int| hi <= i < n implies te <= (#[trigger] otoks[i]).start by {
        lemma_end_monotone(otoks, hi, i);
    }
    assert(te == if hi == n {
        olen
    } else {
        otoks[hi].start as int
    });
    assert forall|i: int| 0 <= i < ntoks.len() implies (#[trigger] ntoks[i]).start <= ntoks[i].end
        && ntoks[i].end <= ntext.len() by {
        if i < lo {
            lemma_end_monotone(otoks, i, lo - 1);
        } else {
            let j = i + (hi - lo);
            assert(otoks[j].start <= otoks[j].end && otoks[j].end <= olen);
            assert(otoks[j].start >= te);
        }
    }
    assert forall|i: int| 0 <= i && i + 1 < ntoks.len() implies ntoks[i].end == ntoks[
        i + 1
    ].start by {
        if i + 1 < lo {
            assert(otoks[i].end == otoks[i + 1].start);
        } else if i + 1 == lo {
            assert(ntoks[i] == otoks[i]);
            assert(otoks[lo - 1].end == otoks[lo].start);
        } else {
            let j = i + (hi - lo);
            assert(otoks[j].end == otoks[j + 1].start);
        }
    }
    if ntoks.len() > 0 {
        if lo == 0 {
            assert(ntoks[0].start == otoks[hi].start - rl);
            assert(otoks[hi].start == te);
        }
        if hi == n {
            assert(ntoks.last() == otoks[lo - 1]);
            assert(otoks[lo - 1].end == otoks[lo].start);
        } else {
            assert(ntoks.last().end == otoks.last().end - rl);
        }
    }
}

/// Deleting the byte span of the token run `[lo, hi)` from the arena and
/// closing the index over it, shifting the later tokens down, yields the
/// element sequence with that run removed, exactly tiled again.
proof fn lemma_remove_span(
    otext: Seq<char>,
    otoks: Seq<TokenRange>,
    ntext: Seq<char>,
    ntoks: Seq<TokenRange>,
    lo: int,
    hi: int,
)
    requires
        remove_span_shape(otext, otoks, ntext, ntoks, lo, hi),
    ensures
        exact_wf(ntext, ntoks),
        elems_of(ntext, ntoks) == elems_of(otext, otoks).subrange(0, lo) + elems_of(
            otext,
            otoks,
        ).subrange(hi, otoks.len() as int),
{
    lemma_remove_span_elems(otext, otoks, ntext, ntoks, lo, hi);
    lemma_remove_span_wf(otext, otoks, ntext, ntoks, lo, hi);
}

impl MutableStringSequence {
    /// Create a new empty sequence.
    pub fn new() -> (r: Self)
        ensures
            r.inv(),
            r.velems() == Seq::<Seq<char>>::empty(),
            r.arena() == Seq::<char>::empty(),
    {
        let r = MutableStringSequence { text: Vec::new(), index: Vec::new() };
        proof {
            assert(r.velems() =~= Seq::<Seq<char>>::empty());
        }
        r
    }

    /// Create a new empty sequence with room for `num_tokens` elements and
    /// `num_chars` characters of text.
    pub fn with_capacity(num_tokens: usize, num_chars: usize) -> (r: Self)
        ensures
            r.inv(),
            r.velems() == Seq::<Seq<char>>::empty(),
            r.arena() == Seq::<char>::empty(),
    {
        let r = MutableStringSequence {
            text: Vec::with_capacity(num_chars),
            index: Vec::with_capacity(num_tokens),
        };
        proof {
            assert(r.velems() =~= Seq::<Seq<char>>::empty());
        }
        r
    }

    /// How many elements can be stored without reallocating the index.
    pub fn token_capacity(&self) -> (c: usize)
        ensures
            c >= self.velems().len(),
    {
        vec_capacity(&self.index)
    }

    /// How many characters can be stored without reallocating the arena.
    pub fn text_capacity(&self) -> (c: usize)
        ensures
            c >= self.arena().len(),
    {
        vec_capacity(&self.text)
    }

    /// Reserve arena space for at least `num_chars` more characters.
    pub fn reserve_buffer(&mut self, num_chars: usize)
        ensures
            final(self).arena() == old(self).arena(),
            final(self).tokens() == old(self).tokens(),
            final(self).inv() == old(self).inv(),
    {
        self.text.reserve(num_chars);
    }

    /// Reserve index space for at least `num_tokens` more elements.
    pub fn reserve_index(&mut self, num_tokens: usize)
        ensures
            final(self).arena() == old(self).arena(),
            final(self).tokens() == old(self).tokens(),
            final(self).inv() == old(self).inv(),
    {
        self.index.reserve(num_tokens);
    }

    /// Append one element at the end of the sequence.
    pub fn push_back(&mut self, value: &str)
        requires
            old(self).inv(),
            old(self).velems().len() < u32::MAX,
            old(self).arena().len() + value@.len() <= u32::MAX,
        ensures
            final(self).inv(),
            final(self).velems() == old(self).velems().push(value@),
            final(self).arena() == old(self).arena() + value@,
    {
        let mut chars = str_to_chars(value);
        let offset = self.text.len() as u32;
        let end = offset + chars.len() as u32;
        let tok = TokenRange { start: offset, end };
        self.index.push(tok);
        self.text.append(&mut chars);
        proof {
            let otext = old(self).text@;
            let otoks = old(self).index@;
            lemma_elems_prefix(otext, self.text@, otoks);
            assert(self.velems()[otoks.len() as int] =~= value@);
            assert(self.velems() =~= old(self).velems().push(value@));
            assert(self.text@ =~= otext + value@);
        }
    }

    /// Remove the last element, dropping its text.
    pub fn pop_back(&mut self)
        requires
            old(self).inv(),
            old(self).velems().len() > 0,
        ensures
            final(self).inv(),
            final(self).velems() == old(self).velems().drop_last(),
    {
        let tok = match self.index.pop() {
            Some(t) => t,
            None => {
                // Unreachable: the sequence is not empty.
                TokenRange { start: 0, end: 0 }
            },
        };
        self.text.truncate(tok.start as usize);
        proof {
            let otext = old(self).text@;
            let otoks = old(self).index@;
            let n = otoks.len() as int;
            let tstart = otoks[n - 1].start as int;
            assert(self.index@ =~= otoks.subrange(0, n - 1));
            assert(self.text@ =~= otext.subrange(0, tstart));
            assert forall|i: int| 0 <= i < n - 1 implies otoks[i].end <= tstart by {
                crate::base_trait::lemma_end_monotone(otoks, i, n - 2);
            }
            lemma_elems_prefix(self.text@, otext, self.index@);
            assert(self.velems() =~= old(self).velems().drop_last());
        }
    }

    /// Insert one element at position `index`, shifting the elements at or
    /// after it. `index` may equal the length, appending at the end.
    #[verifier::rlimit(50)]
    pub fn insert(&mut self, index: usize, value: &str)
        requires
            old(self).inv(),
            index <= old(self).velems().len(),
            old(self).velems().len() < u32::MAX,
            old(self).arena().len() + value@.len() <= u32::MAX,
        ensures
            final(self).inv(),
            final(self).velems() == old(self).velems().insert(index as int, value@),
    {
        proof {
            old(self).inv_tokens_wf();
        }
        let mut chars = str_to_chars(value);
        let vlen = chars.len() as u32;
        let n = self.index.len();
        let offset: u32 = if index < n {
            self.index[index].start
        } else {
            self.text.len() as u32
        };
        let ghost otoks = old(self).index@;
        let ghost otext = old(self).text@;
        let ghost off = offset as int;
        let ghost vl = vlen as int;
        let mut k = index;
        while k < n
            invariant
                otoks == old(self).index@,
                otext == old(self).text@,
                n == otoks.len(),
                index <= k <= n,
                vl == vlen as int,
                otext.len() + vl <= u32::MAX,
                forall|i: int|
                    0 <= i < n ==> (#[trigger] otoks[i]).start <= otoks[i].end && otoks[i].end
                        <= otext.len(),
                self.text@ == otext,
                self.index@.len() == n,
                forall|i: int| 0 <= i < index ==> self.index@[i] == otoks[i],
                forall|i: int|
                    index <= i < k ==> (#[trigger] self.index@[i]).start == otoks[i].start + vl
                        && self.index@[i].end == otoks[i].end + vl,
                forall|i: int| k <= i < n ==> self.index@[i] == otoks[i],
            decreases n - k,
        {
            let u = self.index[k];
            assert(u == otoks[k as int]);
            self.index[k] = TokenRange { start: u.start + vlen, end: u.end + vlen };
            k += 1;
        }
        self.index.insert(index, TokenRange { start: offset, end: offset + vlen });
        let mut tail = self.text.split_off(offset as usize);
        self.text.append(&mut chars);
        self.text.append(&mut tail);
        proof {
            let ni = index as int;
            assert(self.text@ =~= otext.subrange(0, off) + value@ + otext.subrange(
                off,
                otext.len() as int,
            ));
            lemma_insert_elems(otext, otoks, self.text@, self.index@, ni, off, value@);
        }
    }

    /// Remove the element at position `index`, shifting later elements down
    /// and deleting the element's text from the arena.
    #[verifier::rlimit(50)]
    pub fn remove(&mut self, index: usize)
        requires
            old(self).inv(),
            index < old(self).velems().len(),
        ensures
            final(self).inv(),
            final(self).velems() == old(self).velems().remove(index as int),
    {
        proof {
            old(self).inv_tokens_wf();
        }
        let t = self.index.remove(index);
        let rlen = t.end - t.start;
        let n = self.index.len();
        let ghost otoks = old(self).index@;
        let ghost otext = old(self).text@;
        let ghost rl = rlen as int;
        proof {
            assert forall|i: int| index <= i < n implies (#[trigger] otoks[i + 1]).start >= t.end by {
                crate::base_trait::lemma_end_monotone(otoks, index as int + 1, i + 1);
            }
        }
        let mut k = index;
        while k < n
            invariant
                otoks == old(self).index@,
                otext == old(self).text@,
                n + 1 == otoks.len(),
                t == otoks[index as int],
                t.start <= t.end,
                rl == t.end - t.start,
                rl == rlen as int,
                index <= k <= n,
                forall|i: int|
                    0 <= i < n + 1 ==> (#[trigger] otoks[i]).start <= otoks[i].end && otoks[i].end
                        <= otext.len(),
                self.text@ == otext,
                self.index@.len() == n,
                forall|i: int| index <= i < n ==> (#[trigger] otoks[i + 1]).start >= t.end,
                forall|i: int| 0 <= i < index ==> self.index@[i] == otoks[i],
                forall|i: int|
                    index <= i < k ==> (#[trigger] self.index@[i]).start == otoks[i + 1].start - rl
                        && self.index@[i].end == otoks[i + 1].end - rl,
                forall|i: int| k <= i < n ==> self.index@[i] == otoks[i + 1],
            decreases n - k,
        {
            let u = self.index[k];
            assert(u == otoks[k as int + 1]);
            assert(u.start >= t.end);
            self.index[k] = TokenRange { start: u.start - rlen, end: u.end - rlen };
            k += 1;
        }
        let mut tail = self.text.split_off(t.end as usize);
        self.text.truncate(t.start as usize);
        self.text.append(&mut tail);
        proof {
            let ni = index as int;
            assert(self.text@ =~= otext.subrange(0, t.start as int) + otext.subrange(
                t.end as int,
                otext.len() as int,
            ));
            lemma_remove_span(otext, otoks, self.text@, self.index@, ni, ni + 1);
            assert(old(self).velems().remove(ni) =~= old(self).velems().subrange(0, ni) + old(
                self,
            ).velems().subrange(ni + 1, otoks.len() as int));
        }
    }

    /// Remove the run of elements the selector covers, returning a handle
    /// that owns the removed elements and yields them in order. The sequence
    /// itself is consistent again as soon as this returns, so the handle may
    /// be consumed fully, partially, or dropped unused.
    #[verifier::rlimit(50)]
    pub fn drain<R: ToRange>(&mut self, range: R) -> (d: Drain)
        requires
            old(self).inv(),
            ({
                let sel = range.spec_to_range(old(self).velems().len() as int);
                sel.start <= sel.end <= old(self).velems().len()
            }),
        ensures
            final(self).inv(),
            d.inv(),
            ({
                let sel = range.spec_to_range(old(self).velems().len() as int);
                let n = old(self).velems().len() as int;
                &&& final(self).velems() == old(self).velems().subrange(0, sel.start as int)
                    + old(self).velems().subrange(sel.end as int, n)
                &&& d.remaining() == old(self).velems().subrange(sel.start as int, sel.end as int)
            }),
    {
        proof {
            old(self).inv_tokens_wf();
        }
        let n = self.index.len();
        let sel = range.to_range(n);
        let lo = sel.start;
        let hi = sel.end;
        let ghost otoks = self.index@;
        let ghost otext = self.text@;
        let mut elems: Vec<String> = Vec::new();
        let mut k = lo;
        while k < hi
            invariant
                *self == *old(self),
                old(self).inv(),
                lo <= k <= hi,
                hi <= old(self).velems().len(),
                elems@.len() == k - lo,
                forall|i: int|
                    0 <= i < k - lo ==> (#[trigger] elems@[i])@ == old(self).velems()[lo + i],
            decreases hi - k,
        {
            let s = elem_string(self, k);
            proof {
                old(self).inv_tokens_wf();
            }
            elems.push(s);
            k += 1;
        }
        proof {
            assert forall|i: int| 0 <= i < hi - lo implies elems.deep_view()[i] == old(
                self,
            ).velems().subrange(lo as int, hi as int)[i] by {
                assert(elems@[i].deep_view() == elems@[i]@);
            }
            assert(elems.deep_view() =~= old(self).velems().subrange(lo as int, hi as int));
            assert(elems.deep_view().skip(0) =~= elems.deep_view());
        }
        if lo == hi {
            proof {
                let nn = old(self).velems().len() as int;
                assert(old(self).velems() =~= old(self).velems().subrange(0, lo as int) + old(
                    self,
                ).velems().subrange(hi as int, nn));
            }
            return Drain { elems, pos: 0 };
        }
        let begin = self.index[lo].start;
        let end = self.index[hi - 1].end;
        proof {
            lemma_end_monotone(otoks, lo as int, hi as int - 1);
            assert forall|i: int| hi <= i < n implies (#[trigger] otoks[i]).start >= end by {
                lemma_end_monotone(otoks, hi as int, i);
            }
        }
        let rlen = end - begin;
        let ghost rl = rlen as int;
        let mut k = hi;
        while k < n
            invariant
                otoks == old(self).index@,
                otext == old(self).text@,
                n == otoks.len(),
                lo < hi <= k <= n,
                begin == otoks[lo as int].start,
                end == otoks[hi as int - 1].end,
                begin <= end,
                rl == end - begin,
                rl == rlen as int,
                forall|i: int|
                    0 <= i < n ==> (#[trigger] otoks[i]).start <= otoks[i].end && otoks[i].end
                        <= otext.len(),
                forall|i: int| hi <= i < n ==> (#[trigger] otoks[i]).start >= end,
                self.text@ == otext,
                self.index@.len() == n,
                forall|i: int| 0 <= i < lo ==> self.index@[i] == otoks[i],
                forall|i: int|
                    lo <= i < lo + (k - hi) ==> (#[trigger] self.index@[i]).start == otoks[i + (
                    hi - lo)].start - rl && self.index@[i].end == otoks[i + (hi - lo)].end - rl,
                forall|i: int| lo + (k - hi) <= i < n ==> self.index@[i] == otoks[i],
            decreases n - k,
        {
            let u = self.index[k];
            proof {
                assert(u == otoks[k as int]);
                assert(u.start >= end);
            }
            self.index[lo + (k - hi)] = TokenRange { start: u.start - rlen, end: u.end - rlen };
            k += 1;
        }
        self.index.truncate(n - (hi - lo));
        let mut tail = self.text.split_off(end as usize);
        self.text.truncate(begin as usize);
        self.text.append(&mut tail);
        proof {
            assert(self.text@ =~= otext.subrange(0, begin as int) + otext.subrange(
                end as int,
                otext.len() as int,
            ));
            lemma_remove_span(otext, otoks, self.text@, self.index@, lo as int, hi as int);
        }
        Drain { elems, pos: 0 }
    }

    /// Remove every element; the containers keep their capacity.
    pub fn clear(&mut self)
        ensures
            final(self).inv(),
            final(self).velems() == Seq::<Seq<char>>::empty(),
    {
        self.text.clear();
        self.index.clear();
        proof {
            assert(self.velems() =~= Seq::<Seq<char>>::empty());
        }
    }
}

impl MutableStringSequence {
    /// Append a list of elements, reserving space in both containers once
    /// before any copying.
    pub fn extend_from_slice(&mut self, slice: &[&str])
        requires
            old(self).inv(),
            old(self).velems().len() + slice@.len() <= u32::MAX,
            old(self).arena().len() + total_chars(slice.deep_view()) <= u32::MAX,
        ensures
            final(self).inv(),
            final(self).velems() == old(self).velems() + slice.deep_view(),
    {
        let ghost dv = slice.deep_view();
        let mut need: usize = 0;
        let mut i: usize = 0;
        while i < slice.len()
            invariant
                i <= slice@.len(),
                dv == slice.deep_view(),
                dv.len() == slice@.len(),
                need == total_chars(dv.subrange(0, i as int)),
                total_chars(dv) <= u32::MAX,
            decreases slice@.len() - i,
        {
            let s = slice[i];
            proof {
                assert(dv[i as int] == s@);
                lemma_total_chars_step(dv, i as int);
                lemma_total_chars_prefix(dv, i as int + 1);
            }
            need += s.unicode_len();
            i += 1;
        }
        self.reserve_buffer(need);
        self.reserve_index(slice.len());
        let mut i: usize = 0;
        while i < slice.len()
            invariant
                dv == slice.deep_view(),
                dv.len() == slice@.len(),
                i <= slice@.len(),
                old(self).velems().len() + slice@.len() <= u32::MAX,
                old(self).arena().len() + total_chars(dv) <= u32::MAX,
                self.inv(),
                self.velems() == old(self).velems() + dv.subrange(0, i as int),
                self.arena().len() == old(self).arena().len() + total_chars(
                    dv.subrange(0, i as int),
                ),
            decreases slice@.len() - i,
        {
            let s = slice[i];
            proof {
                assert(dv[i as int] == s@);
                lemma_total_chars_step(dv, i as int);
                lemma_total_chars_prefix(dv, i as int + 1);
            }
            self.push_back(s);
            proof {
                assert(self.velems() =~= old(self).velems() + dv.subrange(0, i as int + 1));
            }
            i += 1;
        }
        proof {
            assert(dv.subrange(0, dv.len() as int) =~= dv);
        }
    }

    /// Append every element of `values`, reserving index space up front.
    pub fn extend(&mut self, values: &[String])
        requires
            old(self).inv(),
            old(self).velems().len() + values@.len() <= u32::MAX,
            old(self).arena().len() + total_chars(values.deep_view()) <= u32::MAX,
        ensures
            final(self).inv(),
            final(self).velems() == old(self).velems() + values.deep_view(),
    {
        let ghost dv = values.deep_view();
        self.reserve_index(values.len());
        let mut i: usize = 0;
        while i < values.len()
            invariant
                dv == values.deep_view(),
                dv.len() == values@.len(),
                i <= values@.len(),
                old(self).velems().len() + values@.len() <= u32::MAX,
                old(self).arena().len() + total_chars(dv) <= u32::MAX,
                self.inv(),
                self.velems() == old(self).velems() + dv.subrange(0, i as int),
                self.arena().len() == old(self).arena().len() + total_chars(
                    dv.subrange(0, i as int),
                ),
            decreases values@.len() - i,
        {
            let s = values[i].as_str();
            proof {
                assert(dv[i as int] == s@);
                lemma_total_chars_step(dv, i as int);
                lemma_total_chars_prefix(dv, i as int + 1);
            }
            self.push_back(s);
            proof {
                assert(self.velems() =~= old(self).velems() + dv.subrange(0, i as int + 1));
            }
            i += 1;
        }
        proof {
            assert(dv.subrange(0, dv.len() as int) =~= dv);
        }
    }

    /// Build a sequence from a list of elements.
    pub fn from_slice(slice: &[&str]) -> (r: Self)
        requires
            slice@.len() <= u32::MAX,
            total_chars(slice.deep_view()) <= u32::MAX,
        ensures
            r.inv(),
            r.velems() == slice.deep_view(),
    {
        let mut this = MutableStringSequence::new();
        this.extend_from_slice(slice);
        proof {
            assert(Seq::<Seq<char>>::empty() + slice.deep_view() =~= slice.deep_view());
        }
        this
    }

    /// Wrap a single string as a one-element sequence.
    pub fn from_string(value: &str) -> (r: Self)
        requires
            value@.len() <= u32::MAX,
        ensures
            r.inv(),
            r.velems() == seq![value@],
    {
        let mut this = MutableStringSequence::new();
        this.push_back(value);
        proof {
            assert(this.velems() =~= seq![value@]);
        }
        this
    }

    /// Copy any representation's visible elements into a fresh growable
    /// sequence. A window copies only its visible text span, re-based to
    /// position 0.
    pub fn from_sequence<T: StringSequenceView>(v: &T) -> (r: Self)
        requires
            v.inv(),
        ensures
            r.inv(),
            r.velems() == v.velems(),
    {
        proof {
            v.inv_tokens_wf();
        }
        let n = v.token_count();
        if n == 0 {
            let r = MutableStringSequence::new();
            proof {
                assert(r.velems() =~= v.velems());
            }
            return r;
        }
        let base = v.token_at(0).start;
        let endc = v.token_at(n - 1).end;
        let ghost toks = v.tokens();
        let ghost atext = v.arena();
        proof {
            assert forall|i: int| 0 <= i < n implies base <= (#[trigger] toks[i]).start && toks[
                i
            ].end <= endc by {
                lemma_end_monotone(toks, 0, i);
                lemma_end_monotone(toks, i, n as int - 1);
            }
            lemma_end_monotone(toks, 0, n as int - 1);
        }
        let mut text: Vec<char> = Vec::new();
        let mut m = base;
        while m < endc
            invariant
                v.inv(),
                toks == v.tokens(),
                atext == v.arena(),
                n == toks.len(),
                n > 0,
                base == toks[0].start,
                endc == toks[n as int - 1].end,
                endc <= atext.len(),
                base <= m <= endc,
                text@ == atext.subrange(base as int, m as int),
            decreases endc - m,
        {
            text.push(v.char_at(m as usize));
            proof {
                assert(text@ =~= atext.subrange(base as int, m as int + 1));
            }
            m += 1;
        }
        let mut index: Vec<TokenRange> = Vec::new();
        let mut i: usize = 0;
        while i < n
            invariant
                v.inv(),
                toks == v.tokens(),
                atext == v.arena(),
                n == toks.len(),
                n > 0,
                i <= n,
                base == toks[0].start,
                endc == toks[n as int - 1].end,
                forall|k: int|
                    0 <= k < n ==> base <= (#[trigger] toks[k]).start && toks[k].end <= endc,
                text@ == atext.subrange(base as int, endc as int),
                index@.len() == i,
                forall|k: int|
                    0 <= k < i ==> (#[trigger] index@[k]).start == toks[k].start - base
                        && index@[k].end == toks[k].end - base,
            decreases n - i,
        {
            let t = v.token_at(i);
            proof {
                v.inv_tokens_wf();
                assert(t == toks[i as int]);
                assert(base <= t.start && t.start <= t.end && t.end <= endc);
            }
            index.push(TokenRange { start: t.start - base, end: t.end - base });
            i += 1;
        }
        let r = MutableStringSequence { text, index };
        proof {
            let b = base as int;
            assert forall|k: int| 0 <= k < n implies r.velems()[k] == v.velems()[k] by {
                let s = toks[k].start as int;
                let e = toks[k].end as int;
                assert forall|q: int| s <= q < e implies r.text@[q - b] == #[trigger] atext[q] by {
                    assert(r.text@[q - b] == atext.subrange(b, endc as int)[q - b]);
                }
                assert(r.text@.subrange(s - b, e - b) =~= atext.subrange(s, e));
            }
            assert(r.velems() =~= v.velems());
        }
        r
    }

    /// The invariant that every mutation preserves keeps the token index
    /// contiguous and non-overlapping from position 0, tiling the arena
    /// exactly; so the full text always equals the concatenation of the
    /// surviving elements.
    pub proof fn inv_exact_tiling(&self)
        requires
            self.inv(),
        ensures
            exact_wf(self.arena(), self.tokens()),
            concat_of(self.velems()) == self.arena(),
    {
        crate::laws::lemma_exact_arena_concat(self.arena(), self.tokens());
    }

    /// Compact this sequence into a single packed allocation, consuming it.
    pub fn into_string_sequence(self) -> (r: StringSequence)
        requires
            self.inv(),
        ensures
            r.inv(),
            r.velems() == self.velems(),
    {
        StringSequence::from_parts(&self.index, &self.text)
    }

    /// Compact this sequence into a reference-counted packed allocation.
    pub fn into_shared_sequence(self) -> (r: SharedStringSequence)
        requires
            self.inv(),
        ensures
            r.inv(),
            r.velems() == self.velems(),
            r.full_elems() == r.velems(),
            r.window().start == 0 && r.window().end == r.full_tokens().len(),
    {
        self.into_string_sequence().into_shared()
    }
}

impl Clone for MutableStringSequence {
    /// A clone sees the same elements as the original.
    fn clone(&self) -> (r: Self)
        ensures
            r.arena() == self.arena(),
            r.tokens() == self.tokens(),
            r.velems() == self.velems(),
            r.inv() == self.inv(),
    {
        let r = MutableStringSequence { text: self.text.clone(), index: self.index.clone() };
        proof {
            assert(r.text@ =~= self.text@);
            assert(r.index@ =~= self.index@);
        }
        r
    }
}

impl StringSequence {
    /// Build a packed sequence from a list of elements.
    pub fn from_slice(slice: &[&str]) -> (r: Self)
        requires
            slice@.len() <= u32::MAX,
            total_chars(slice.deep_view()) <= u32::MAX,
        ensures
            r.inv(),
            r.velems() == slice.deep_view(),
    {
        MutableStringSequence::from_slice(slice).into_string_sequence()
    }
}

impl SharedStringSequence {
    /// Build a reference-counted packed sequence from a list of elements.
    pub fn from_slice(slice: &[&str]) -> (r: Self)
        requires
            slice@.len() <= u32::MAX,
            total_chars(slice.deep_view()) <= u32::MAX,
        ensures
            r.inv(),
            r.velems() == slice.deep_view(),
            r.full_elems() == r.velems(),
            r.window().start == 0 && r.window().end == r.full_tokens().len(),
    {
        MutableStringSequence::from_slice(slice).into_shared_sequence()
    }

    /// Copy the visible elements into a fresh packed sequence of their own.
    pub fn to_string_sequence(&self) -> (r: StringSequence)
        requires
            self.inv(),
        ensures
            r.inv(),
            r.velems() == self.velems(),
    {
        MutableStringSequence::from_sequence(self).into_string_sequence()
    }
}

/// The handle returned by [`MutableStringSequence::drain`]: it owns the
/// removed elements and yields them in order. The owning sequence is
/// consistent again the moment the handle is created, so consuming it fully,
/// partially, or not at all all leave the sequence in the same state.
pub struct Drain {
    elems: Vec<String>,
    pos: usize,
}

impl Drain {
    /// The elements not yet yielded, in order.
    pub closed spec fn remaining(&self) -> Seq<Seq<char>> {
        self.elems.deep_view().skip(self.pos as int)
    }

    /// The cursor never passes the end of the owned elements.
    pub closed spec fn inv(&self) -> bool {
        self.pos <= self.elems@.len()
    }

    /// Yield the next drained element, or `None` when all have been yielded.
    pub fn next(&mut self) -> (r: Option<String>)
        requires
            old(self).inv(),
        ensures
            final(self).inv(),
            old(self).remaining().len() > 0 ==> (r matches Some(s) && s@ == old(self).remaining()[0]
                && final(self).remaining() == old(self).remaining().drop_first()),
            old(self).remaining().len() == 0 ==> (r is None && final(self).remaining() == old(
                self,
            ).remaining()),
    {
        if self.pos < self.elems.len() {
            let s = self.elems[self.pos].clone();
            self.pos += 1;
            proof {
                assert(s@ == old(self).remaining()[0]);
                assert(self.remaining() =~= old(self).remaining().drop_first());
            }
            Some(s)
        } else {
            None
        }
    }

    /// How many elements remain to be yielded.
    pub fn len(&self) -> (n: usize)
        requires
            self.inv(),
        ensures
            n == self.remaining().len(),
    {
        self.elems.len() - self.pos
    }

    /// Collect every remaining element into a vector, consuming the handle.
    pub fn into_vec(self) -> (r: Vec<String>)
        requires
            self.inv(),
        ensures
            r.deep_view() == self.remaining(),
    {
        let mut elems = self.elems;
        let tail = elems.split_off(self.pos);
        proof {
            assert(tail.deep_view() =~= self.remaining());
        }
        tail
    }
}


impl MutableStringSequence {
    /// A cursor over every visible element, in order.
    pub fn iter(&self) -> (it: StringSequenceIter)
        requires
            self.inv(),
        ensures
            it.inv(),
            it.remaining() == self.velems(),
    {
        seq_iter(self)
    }

    /// A cursor over the elements the selector covers, after normalization
    /// against the visible length.
    pub fn slice<R: ToRange>(&self, range: R) -> (it: StringSequenceIter)
        requires
            self.inv(),
            ({
                let sel = range.spec_to_range(self.velems().len() as int);
                sel.start <= sel.end <= self.velems().len()
            }),
        ensures
            it.inv(),
            it.remaining() == self.velems().subrange(
                range.spec_to_range(self.velems().len() as int).start as int,
                range.spec_to_range(self.velems().len() as int).end as int,
            ),
    {
        seq_slice(self, range)
    }

    /// The element at `index`, or `None` when out of bounds.
    pub fn get(&self, index: usize) -> (r: Option<String>)
        requires
            self.inv(),
        ensures
            index < self.velems().len() ==> (r matches Some(s) && s@ == self.velems()[
                index as int
            ]),
            index >= self.velems().len() ==> r is None,
    {
        seq_get(self, index)
    }

    /// The full text: every element concatenated in order, no separators.
    pub fn text(&self) -> (r: String)
        requires
            self.inv(),
        ensures
            r@ == concat_of(self.velems()),
    {
        seq_text(self)
    }

    /// The first element, or `None` when the sequence is empty.
    pub fn first(&self) -> (r: Option<String>)
        requires
            self.inv(),
        ensures
            self.velems().len() > 0 ==> (r matches Some(s) && s@ == self.velems()[0]),
            self.velems().len() == 0 ==> r is None,
    {
        seq_get(self, 0)
    }

    /// The last element, or `None` when the sequence is empty.
    pub fn last(&self) -> (r: Option<String>)
        requires
            self.inv(),
        ensures
            self.velems().len() > 0 ==> (r matches Some(s) && s@ == self.velems().last()),
            self.velems().len() == 0 ==> r is None,
    {
        let n = seq_len(self);
        if n == 0 {
            None
        } else {
            seq_get(self, n - 1)
        }
    }

    /// How many elements are visible.
    pub fn len(&self) -> (n: usize)
        requires
            self.inv(),
        ensures
            n == self.velems().len(),
    {
        seq_len(self)
    }

    /// Whether no element is visible.
    pub fn is_empty(&self) -> (r: bool)
        requires
            self.inv(),
        ensures
            r == (self.velems().len() == 0),
    {
        seq_len(self) == 0
    }

    /// Element-wise equality against a prefix of `other`'s length.
    pub fn starts_with(&self, other: &[&str]) -> (r: bool)
        requires
            self.inv(),
        ensures
            r == seq_starts_with(self.velems(), other.deep_view()),
    {
        seq_starts_with_exec(self, other)
    }

    /// Element-wise equality against a suffix of `other`'s length.
    pub fn ends_with(&self, other: &[&str]) -> (r: bool)
        requires
            self.inv(),
        ensures
            r == seq_ends_with(self.velems(), other.deep_view()),
    {
        seq_ends_with_exec(self, other)
    }

    /// Whether `other` occurs as a contiguous run of whole elements. An
    /// empty `other` is contained in every sequence.
    pub fn contains(&self, other: &[&str]) -> (r: bool)
        requires
            self.inv(),
        ensures
            r == seq_contains_run(self.velems(), other.deep_view()),
    {
        seq_contains_exec(self, other)
    }

    /// Every visible element, copied into owned strings in order.
    pub fn to_vec(&self) -> (r: Vec<String>)
        requires
            self.inv(),
        ensures
            r.deep_view() == self.velems(),
    {
        seq_to_vec(self)
    }

    /// Whether this sequence and `other` hold equal elements in the same
    /// order, whatever representation `other` uses.
    pub fn eq_seq<T: StringSequenceView>(&self, other: &T) -> (r: bool)
        requires
            self.inv(),
            other.inv(),
        ensures
            r == (self.velems() == other.velems()),
    {
        seq_eq(self, other)
    }

    /// Lexicographic comparison by elements against `other`, whatever
    /// representation `other` uses.
    pub fn cmp_seq<T: StringSequenceView>(&self, other: &T) -> (o: core::cmp::Ordering)
        requires
            self.inv(),
            other.inv(),
        ensures
            o == cmp_elems(self.velems(), other.velems()),
    {
        seq_cmp(self, other)
    }
}

} // verus!
