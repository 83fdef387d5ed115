//! Maximally efficient allocation and deallocation of a large number of
//! instances of a type.
//!
//! A [`Slab`] is a densely packed, growable store of homogeneous values
//! addressed by small integer keys. Insertion hands out a stable key,
//! removal reclaims the slot through an intrusive free list, and lookup is
//! a single index. The key width is pluggable through the [`Key`] trait, so
//! memory-constrained callers can use 8- or 16-bit handles.

use vstd::prelude::*;

mod key;
mod slab;

pub use key::Key;
pub use slab::Slab;

verus! {

/// A [`Slab`] which can hold up to 255 elements.
pub type Slab8<T> = Slab<T, u8>;

/// A [`Slab`] which can hold up to 65535 elements.
pub type Slab16<T> = Slab<T, u16>;

/// A [`Slab`] which can hold up to 4294967295 elements.
pub type Slab32<T> = Slab<T, u32>;

/// A [`Slab`] which can hold as many elements as a `Vec` can.
pub type SlabSize<T> = Slab<T, usize>;

} // verus!
