//! The packed encoding: an index of token ranges and a character arena fused
//! into one contiguous array of 8-byte words. The first `index_count` words
//! each hold one `[start, end)` pair as two 32-bit halves; the remaining
//! words hold the arena's characters, two scalar values per word, with a zero
//! half padding an odd tail. No explicit content length is stored: the last
//! token's `end` is authoritative, and padding is never read.

use vstd::prelude::*;

use crate::base_trait::TokenRange;

verus! {

/// Two 32-bit halves fused into one word.
pub open spec fn word_of(lo: u32, hi: u32) -> u64 {
    (lo + hi * 0x1_0000_0000) as u64
}

/// The low 32-bit half of a word.
pub open spec fn word_lo(w: u64) -> u32 {
    (w % 0x1_0000_0000) as u32
}

/// The high 32-bit half of a word.
pub open spec fn word_hi(w: u64) -> u32 {
    (w / 0x1_0000_0000) as u32
}

/// Splitting a fused word recovers both halves.
pub proof fn lemma_word_roundtrip(lo: u32, hi: u32)
    ensures
        word_lo(word_of(lo, hi)) == lo,
        word_hi(word_of(lo, hi)) == hi,
{
    let w = lo + hi * 0x1_0000_0000;
    assert(w == word_of(lo, hi));
    vstd::arithmetic::div_mod::lemma_fundamental_div_mod_converse(
        w as int,
        0x1_0000_0000,
        hi as int,
        lo as int,
    );
}

/// Fuse two halves into one word.
pub fn make_word(lo: u32, hi: u32) -> (w: u64)
    ensures
        w == word_of(lo, hi),
        word_lo(w) == lo,
        word_hi(w) == hi,
{
    proof {
        lemma_word_roundtrip(lo, hi);
    }
    lo as u64 + hi as u64 * 0x1_0000_0000
}

/// Recover the low half of a word.
pub fn split_lo(w: u64) -> (lo: u32)
    ensures
        lo == word_lo(w),
{
    (w % 0x1_0000_0000) as u32
}

/// Recover the high half of a word.
pub fn split_hi(w: u64) -> (hi: u32)
    ensures
        hi == word_hi(w),
{
    (w / 0x1_0000_0000) as u32
}

/// Relies on `char::from_u32`: it returns `Some` exactly when the argument
/// is a Unicode scalar value, and the resulting `char` has that value.
#[verifier::external_body]
pub(crate) fn char_of_u32(v: u32) -> (c: char)
    requires
        vstd::utf8::is_scalar(v),
    ensures
        c as u32 == v,
{
    char::from_u32(v).unwrap()
}

/// The token encoded in the `i`-th word of a packed array.
pub open spec fn packed_token(raw: Seq<u64>, i: int) -> TokenRange {
    TokenRange { start: word_lo(raw[i]), end: word_hi(raw[i]) }
}

/// All tokens of a packed array whose index region holds `index_count` words.
pub open spec fn packed_tokens(raw: Seq<u64>, index_count: int) -> Seq<TokenRange> {
    Seq::new(index_count as nat, |i: int| packed_token(raw, i))
}

/// The 32-bit half holding arena position `j` of a packed array whose index
/// region holds `index_count` words.
pub open spec fn packed_unit(raw: Seq<u64>, index_count: int, j: int) -> u32 {
    if j % 2 == 0 {
        word_lo(raw[index_count + j / 2])
    } else {
        word_hi(raw[index_count + j / 2])
    }
}

/// The number of arena characters a packed array holds: the last token's
/// `end`, or 0 when there are no tokens.
pub open spec fn packed_text_len(raw: Seq<u64>, index_count: int) -> int {
    if index_count == 0 {
        0
    } else {
        packed_token(raw, index_count - 1).end as int
    }
}

/// The arena characters of a packed array.
pub open spec fn packed_text(raw: Seq<u64>, index_count: int) -> Seq<char> {
    Seq::new(
        packed_text_len(raw, index_count) as nat,
        |j: int| packed_unit(raw, index_count, j) as char,
    )
}

/// Well-formedness of a packed array with `index_count` index words: tokens
/// are contiguous from position 0, the word count is exactly what the index
/// and the arena need, and every stored character half within the content is
/// a Unicode scalar value.
pub open spec fn packed_wf(raw: Seq<u64>, index_count: int) -> bool {
    let toks = packed_tokens(raw, index_count);
    let clen = packed_text_len(raw, index_count);
    &&& 0 <= index_count <= u32::MAX
    &&& (index_count > 0 ==> toks[0].start == 0)
    &&& forall|i: int| 0 <= i < index_count ==> toks[i].start <= toks[i].end
    &&& forall|i: int| 0 <= i && i + 1 < index_count ==> toks[i].end == toks[i + 1].start
    &&& raw.len() == index_count + (clen + 1) / 2
    &&& forall|j: int| 0 <= j < clen ==> vstd::utf8::is_scalar(#[trigger] packed_unit(raw, index_count, j))
}

/// Fuse an index and a character arena into one packed word array. The
/// resulting array holds the index words first, then the arena characters,
/// two per word, an odd tail padded with a zero half.
pub fn encode(index: &Vec<TokenRange>, text: &Vec<char>) -> (raw: Vec<u64>)
    requires
        index@.len() <= u32::MAX,
        text@.len() <= u32::MAX,
        index@.len() > 0 ==> index@[0].start == 0,
        forall|i: int| 0 <= i < index@.len() ==> index@[i].start <= index@[i].end,
        forall|i: int| 0 <= i && i + 1 < index@.len() ==> index@[i].end == index@[i + 1].start,
        text@.len() == if index@.len() == 0 { 0int } else { index@.last().end as int },
    ensures
        packed_wf(raw@, index@.len() as int),
        packed_tokens(raw@, index@.len() as int) == index@,
        packed_text(raw@, index@.len() as int) == text@,
{
    broadcast use vstd::utf8::char_is_scalar, vstd::utf8::char_u32_cast;

    let ic = index.len();
    let ghost icc = ic as int;
    let mut raw: Vec<u64> = Vec::new();
    let mut i: usize = 0;
    while i < ic
        invariant
            ic == index@.len() <= u32::MAX,
            i <= ic,
            raw@.len() == i,
            forall|k: int| 0 <= k < i ==> #[trigger] raw@[k] == word_of(index@[k].start, index@[k].end),
        decreases ic - i,
    {
        let t = index[i];
        raw.push(make_word(t.start, t.end));
        i += 1;
    }
    let tlen = text.len();
    let half = tlen / 2;
    let mut w: usize = 0;
    while w < half
        invariant
            ic == index@.len(),
            icc == ic as int,
            tlen == text@.len(),
            half == text@.len() as int / 2,
            w <= half,
            raw@.len() == ic + w,
            forall|k: int| 0 <= k < ic ==> #[trigger] raw@[k] == word_of(index@[k].start, index@[k].end),
            forall|k: int|
                0 <= k < 2 * w ==> #[trigger] packed_unit(raw@, icc, k) == text@[k] as u32,
        decreases half - w,
    {
        let lo = text[2 * w] as u32;
        let hi = text[2 * w + 1] as u32;
        let ghost raw0 = raw@;
        raw.push(make_word(lo, hi));
        proof {
            let wi = w as int;
            assert forall|k: int| 0 <= k < 2 * (wi + 1) implies #[trigger] packed_unit(
                raw@,
                icc,
                k,
            ) == text@[k] as u32 by {
                if k < 2 * wi {
                    assert(packed_unit(raw0, icc, k) == text@[k] as u32);
                    assert(0 <= icc + k / 2 < icc + wi);
                    assert(raw@[icc + k / 2] == raw0[icc + k / 2]);
                } else {
                    assert(k / 2 == wi);
                    assert(raw@[icc + wi] == word_of(lo, hi));
                    lemma_word_roundtrip(lo, hi);
                }
            }
        }
        w += 1;
    }
    if text.len() % 2 == 1 {
        let lo = text[text.len() - 1] as u32;
        let ghost raw0 = raw@;
        raw.push(make_word(lo, 0));
        proof {
            let last = text@.len() as int - 1;
            assert forall|k: int| 0 <= k < text@.len() implies #[trigger] packed_unit(
                raw@,
                icc,
                k,
            ) == text@[k] as u32 by {
                if k < last {
                    assert(packed_unit(raw0, icc, k) == text@[k] as u32);
                    assert(0 <= icc + k / 2 < icc + half);
                    assert(raw@[icc + k / 2] == raw0[icc + k / 2]);
                } else {
                    assert(k / 2 == half as int);
                    assert(raw@[icc + half] == word_of(lo, 0));
                    lemma_word_roundtrip(lo, 0);
                }
            }
        }
    }
    proof {
        assert(raw@.len() == icc + (text@.len() + 1) as int / 2);
        assert forall|k: int| 0 <= k < icc implies #[trigger] packed_tokens(raw@, icc)[k]
            == index@[k] by {
            lemma_word_roundtrip(index@[k].start, index@[k].end);
        }
        assert(packed_tokens(raw@, icc) =~= index@);
        assert(packed_text_len(raw@, icc) == text@.len());
        assert forall|k: int| 0 <= k < text@.len() implies #[trigger] packed_text(raw@, icc)[k]
            == text@[k] by {
            assert(packed_unit(raw@, icc, k) == text@[k] as u32);
            vstd::utf8::char_u32_cast(text@[k], text@[k] as u32);
        }
        assert(packed_text(raw@, icc) =~= text@);
    }
    raw
}

} // verus!
