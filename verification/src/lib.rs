//! A compact representation of an ordered sequence of strings: one contiguous
//! character arena holding every element's text concatenated, paired with an
//! index of half-open ranges locating each element.
//!
//! Three representations share one view contract:
//! - [`StringSequence`]: an immutable, exclusively owned packed form,
//! - [`SharedStringSequence`]: a reference-counted packed form with cheap
//!   sub-range windows,
//! - [`MutableStringSequence`]: a growable editor supporting push, insert,
//!   remove and drain.
#![allow(unused_imports)]

pub mod base_trait;
pub mod laws;
pub mod mutable;
pub mod packed;
pub mod view;

pub use mutable::Drain;
pub use mutable::MutableStringSequence;
pub use view::SharedStringSequence;
pub use view::StringSequence;
