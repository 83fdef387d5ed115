use vstd::prelude::*;

verus! {

/// An unsigned-integer-like handle addressing one slot of a
/// [`Slab`](crate::Slab).
///
/// A key stands for the mathematical integer [`value`](Key::value); the
/// container relies only on a zero key, lossless conversion to an index, and
/// successor/predecessor. Distinct integer widths are distinct instantiations
/// of this contract, each fixing how many slots can ever be issued; there is
/// no implicit widening between them.
pub trait Key: Sized + Copy {
    /// The key as a mathematical integer. Every key of an unsigned width
    /// stands for a value between `0` and [`max_value`](Key::max_value).
    spec fn value(self) -> int;

    /// The largest integer the key type can represent.
    spec fn max_value() -> int;

    /// The key type's maximum is not below zero, so the zero key always
    /// exists.
    proof fn lemma_max_value_nonneg()
        ensures
            Self::max_value() >= 0,
    ;

    /// The additive identity: the first key a fresh slab hands out.
    fn zero() -> (k: Self)
        ensures
            k.value() == 0,
    ;

    /// Lossless conversion to a machine-width index.
    fn as_usize(self) -> (i: usize)
        requires
            0 <= self.value() <= usize::MAX as int,
        ensures
            i == self.value(),
    ;

    /// The successor key. The container only asks for it on keys below
    /// [`max_value`](Key::max_value), so the increment cannot overflow.
    fn inc(self) -> (k: Self)
        requires
            0 <= self.value() < Self::max_value(),
        ensures
            k.value() == self.value() + 1,
    ;

    /// The predecessor key. The container only asks for it on keys above
    /// zero, so the decrement cannot underflow.
    fn dec(self) -> (k: Self)
        requires
            self.value() > 0,
        ensures
            k.value() == self.value() - 1,
    ;
}

impl Key for u8 {
    open spec fn value(self) -> int {
        self as int
    }

    open spec fn max_value() -> int {
        u8::MAX as int
    }

    proof fn lemma_max_value_nonneg() {
    }

    fn zero() -> (k: Self) {
        0
    }

    fn as_usize(self) -> (i: usize) {
        self as usize
    }

    fn inc(self) -> (k: Self) {
        self + 1
    }

    fn dec(self) -> (k: Self) {
        self - 1
    }
}

impl Key for u16 {
    open spec fn value(self) -> int {
        self as int
    }

    open spec fn max_value() -> int {
        u16::MAX as int
    }

    proof fn lemma_max_value_nonneg() {
    }

    fn zero() -> (k: Self) {
        0
    }

    fn as_usize(self) -> (i: usize) {
        self as usize
    }

    fn inc(self) -> (k: Self) {
        self + 1
    }

    fn dec(self) -> (k: Self) {
        self - 1
    }
}

impl Key for u32 {
    open spec fn value(self) -> int {
        self as int
    }

    open spec fn max_value() -> int {
        u32::MAX as int
    }

    proof fn lemma_max_value_nonneg() {
    }

    fn zero() -> (k: Self) {
        0
    }

    fn as_usize(self) -> (i: usize) {
        self as usize
    }

    fn inc(self) -> (k: Self) {
        self + 1
    }

    fn dec(self) -> (k: Self) {
        self - 1
    }
}

impl Key for u64 {
    open spec fn value(self) -> int {
        self as int
    }

    open spec fn max_value() -> int {
        u64::MAX as int
    }

    proof fn lemma_max_value_nonneg() {
    }

    fn zero() -> (k: Self) {
        0
    }

    fn as_usize(self) -> (i: usize) {
        self as usize
    }

    fn inc(self) -> (k: Self) {
        self + 1
    }

    fn dec(self) -> (k: Self) {
        self - 1
    }
}

impl Key for usize {
    open spec fn value(self) -> int {
        self as int
    }

    open spec fn max_value() -> int {
        usize::MAX as int
    }

    proof fn lemma_max_value_nonneg() {
    }

    fn zero() -> (k: Self) {
        0
    }

    fn as_usize(self) -> (i: usize) {
        self
    }

    fn inc(self) -> (k: Self) {
        self + 1
    }

    fn dec(self) -> (k: Self) {
        self - 1
    }
}

} // verus!
