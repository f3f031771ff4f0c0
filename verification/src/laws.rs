//! Laws of the view contract, stated over the specification model shared by
//! every representation. Each law is a public proof function; together with
//! the operations' own contracts they pin down slicing, containment and the
//! relation between the arena and the elements.

use vstd::prelude::*;

use crate::base_trait::concat_of;
use crate::base_trait::elems_of;
use crate::base_trait::exact_wf;
use crate::base_trait::lemma_concat_contiguous;
use crate::base_trait::seq_contains_run;
use crate::base_trait::seq_ends_with;
use crate::base_trait::seq_starts_with;
use crate::base_trait::tokens_wf;
use crate::base_trait::TokenRange;

verus! {

/// Slicing with the full range returns an equivalent sequence: a slice or
/// window over `[0, len)` sees exactly the original elements.
pub proof fn lemma_slice_full_range(v: Seq<Seq<char>>)
    ensures
        v.subrange(0, v.len() as int) == v,
{
    assert(v.subrange(0, v.len() as int) =~= v);
}

/// Slicing with an empty range `[i, i)` is always empty.
pub proof fn lemma_slice_empty(v: Seq<Seq<char>>, i: int)
    requires
        0 <= i <= v.len(),
    ensures
        v.subrange(i, i).len() == 0,
{
}

/// The empty run is contained in every sequence.
pub proof fn lemma_contains_empty(v: Seq<Seq<char>>)
    ensures
        seq_contains_run(v, Seq::<Seq<char>>::empty()),
{
    let p = Seq::<Seq<char>>::empty();
    assert(v.subrange(0, 0 + p.len() as int) =~= p);
}

/// Every sequence starts with itself and ends with itself.
pub proof fn lemma_prefix_suffix_self(v: Seq<Seq<char>>)
    ensures
        seq_starts_with(v, v),
        seq_ends_with(v, v),
{
    assert(v.subrange(0, v.len() as int) =~= v);
}

/// In an exactly tiled sequence (the growable and packed forms), the full
/// text equals the concatenation of all elements: mutations that keep the
/// index contiguous and non-overlapping keep the arena equal to its
/// elements' concatenation.
pub proof fn lemma_exact_arena_concat(text: Seq<char>, toks: Seq<TokenRange>)
    requires
        exact_wf(text, toks),
    ensures
        concat_of(elems_of(text, toks)) == text,
{
    if toks.len() == 0 {
        assert(concat_of(elems_of(text, toks)) =~= text);
    } else {
        lemma_concat_contiguous(text, toks);
        assert(text.subrange(0, text.len() as int) =~= text);
    }
}

/// For any contiguous token run, the concatenation of the visible elements
/// is the arena span they tile; a window sees exactly the text between its
/// first element's start and its last element's end.
pub proof fn lemma_window_text(text: Seq<char>, toks: Seq<TokenRange>)
    requires
        toks.len() > 0,
        tokens_wf(toks, text.len() as int),
    ensures
        concat_of(elems_of(text, toks)) == text.subrange(
            toks[0].start as int,
            toks.last().end as int,
        ),
{
    lemma_concat_contiguous(text, toks);
}

} // verus!
