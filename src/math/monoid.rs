use vstd::prelude::*;

verus! {

/// An associative operation with a neutral element.
///
/// Implementors fix the abstract value `identity()` and the abstract operation
/// `combine`, prove the two monoid laws about them, and provide executable
/// versions of both.
pub trait Monoid: Sized {
    /// The neutral element.
    spec fn identity() -> Self;

    /// The associative operation.
    spec fn combine(a: Self, b: Self) -> Self;

    /// `identity()` is neutral on both sides.
    proof fn lemma_identity(x: Self)
        ensures
            Self::combine(Self::identity(), x) == x,
            Self::combine(x, Self::identity()) == x,
    ;

    /// `combine` is associative.
    proof fn lemma_associative(a: Self, b: Self, c: Self)
        ensures
            Self::combine(Self::combine(a, b), c) == Self::combine(a, Self::combine(b, c)),
    ;

    fn mempty() -> (r: Self)
        ensures
            r == Self::identity(),
    ;

    fn mappend(&self, other: &Self) -> (r: Self)
        ensures
            r == Self::combine(*self, *other),
    ;
}

/// A totally ordered type with a least and a greatest value.
///
/// `as_int` embeds the type into the integers; the order of the type is the
/// order of the integers it maps to.
pub trait Bounded: Sized + Copy {
    spec fn as_int(self) -> int;

    spec fn least() -> Self;

    spec fn greatest() -> Self;

    proof fn lemma_bounds(x: Self)
        ensures
            Self::least().as_int() <= x.as_int() <= Self::greatest().as_int(),
    ;

    proof fn lemma_injective(x: Self, y: Self)
        ensures
            x.as_int() == y.as_int() ==> x == y,
    ;

    fn min_value() -> (r: Self)
        ensures
            r == Self::least(),
    ;

    fn max_value() -> (r: Self)
        ensures
            r == Self::greatest(),
    ;

    fn le(&self, other: &Self) -> (r: bool)
        ensures
            r == (self.as_int() <= other.as_int()),
    ;
}

impl Bounded for i64 {
    open spec fn as_int(self) -> int {
        self as int
    }

    open spec fn least() -> i64 {
        i64::MIN
    }

    open spec fn greatest() -> i64 {
        i64::MAX
    }

    proof fn lemma_bounds(x: i64) {
    }

    proof fn lemma_injective(x: i64, y: i64) {
    }

    fn min_value() -> (r: i64) {
        i64::MIN
    }

    fn max_value() -> (r: i64) {
        i64::MAX
    }

    fn le(&self, other: &i64) -> (r: bool) {
        *self <= *other
    }
}

impl Bounded for i32 {
    open spec fn as_int(self) -> int {
        self as int
    }

    open spec fn least() -> i32 {
        i32::MIN
    }

    open spec fn greatest() -> i32 {
        i32::MAX
    }

    proof fn lemma_bounds(x: i32) {
    }

    proof fn lemma_injective(x: i32, y: i32) {
    }

    fn min_value() -> (r: i32) {
        i32::MIN
    }

    fn max_value() -> (r: i32) {
        i32::MAX
    }

    fn le(&self, other: &i32) -> (r: bool) {
        *self <= *other
    }
}

impl Bounded for isize {
    open spec fn as_int(self) -> int {
        self as int
    }

    open spec fn least() -> isize {
        isize::MIN
    }

    open spec fn greatest() -> isize {
        isize::MAX
    }

    proof fn lemma_bounds(x: isize) {
    }

    proof fn lemma_injective(x: isize, y: isize) {
    }

    fn min_value() -> (r: isize) {
        isize::MIN
    }

    fn max_value() -> (r: isize) {
        isize::MAX
    }

    fn le(&self, other: &isize) -> (r: bool) {
        *self <= *other
    }
}

impl Bounded for u64 {
    open spec fn as_int(self) -> int {
        self as int
    }

    open spec fn least() -> u64 {
        u64::MIN
    }

    open spec fn greatest() -> u64 {
        u64::MAX
    }

    proof fn lemma_bounds(x: u64) {
    }

    proof fn lemma_injective(x: u64, y: u64) {
    }

    fn min_value() -> (r: u64) {
        u64::MIN
    }

    fn max_value() -> (r: u64) {
        u64::MAX
    }

    fn le(&self, other: &u64) -> (r: bool) {
        *self <= *other
    }
}

impl Bounded for u32 {
    open spec fn as_int(self) -> int {
        self as int
    }

    open spec fn least() -> u32 {
        u32::MIN
    }

    open spec fn greatest() -> u32 {
        u32::MAX
    }

    proof fn lemma_bounds(x: u32) {
    }

    proof fn lemma_injective(x: u32, y: u32) {
    }

    fn min_value() -> (r: u32) {
        u32::MIN
    }

    fn max_value() -> (r: u32) {
        u32::MAX
    }

    fn le(&self, other: &u32) -> (r: bool) {
        *self <= *other
    }
}

impl Bounded for usize {
    open spec fn as_int(self) -> int {
        self as int
    }

    open spec fn least() -> usize {
        usize::MIN
    }

    open spec fn greatest() -> usize {
        usize::MAX
    }

    proof fn lemma_bounds(x: usize) {
    }

    proof fn lemma_injective(x: usize, y: usize) {
    }

    fn min_value() -> (r: usize) {
        usize::MIN
    }

    fn max_value() -> (r: usize) {
        usize::MAX
    }

    fn le(&self, other: &usize) -> (r: bool) {
        *self <= *other
    }
}

/// The larger of two values; the identity is the least value of the type.
#[derive(Clone, Copy, Debug)]
pub struct Max<T>(pub T);

impl<T: Bounded> Monoid for Max<T> {
    open spec fn identity() -> Self {
        Max(T::least())
    }

    open spec fn combine(a: Self, b: Self) -> Self {
        if a.0.as_int() <= b.0.as_int() {
            b
        } else {
            a
        }
    }

    proof fn lemma_identity(x: Self) {
        T::lemma_bounds(x.0);
        T::lemma_injective(x.0, T::least());
    }

    proof fn lemma_associative(a: Self, b: Self, c: Self) {
    }

    fn mempty() -> (r: Self) {
        Max(T::min_value())
    }

    fn mappend(&self, other: &Self) -> (r: Self) {
        if self.0.le(&other.0) {
            Max(other.0)
        } else {
            Max(self.0)
        }
    }
}

/// The smaller of two values; the identity is the greatest value of the type.
#[derive(Clone, Copy, Debug)]
pub struct Min<T>(pub T);

impl<T: Bounded> Monoid for Min<T> {
    open spec fn identity() -> Self {
        Min(T::greatest())
    }

    open spec fn combine(a: Self, b: Self) -> Self {
        if a.0.as_int() <= b.0.as_int() {
            a
        } else {
            b
        }
    }

    proof fn lemma_identity(x: Self) {
        T::lemma_bounds(x.0);
        T::lemma_injective(x.0, T::greatest());
    }

    proof fn lemma_associative(a: Self, b: Self, c: Self) {
    }

    fn mempty() -> (r: Self) {
        Min(T::max_value())
    }

    fn mappend(&self, other: &Self) -> (r: Self) {
        if self.0.le(&other.0) {
            Min(self.0)
        } else {
            Min(other.0)
        }
    }
}

} // verus!
