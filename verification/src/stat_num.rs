use vstd::prelude::*;

verus! {

/// True when `v` can be held by a value of `T`.
pub open spec fn fits<T: StatNum>(v: int) -> bool {
    T::min_int() <= v <= T::max_int()
}

/// A number that a stat or a change can hold: an integer of fixed width,
/// seen as the mathematical integer it stands for.
///
/// Its operations refuse (by their `requires`) the inputs on which the
/// result would not fit, where the machine operation would overflow.
pub trait StatNum: Sized + Copy {
    /// The integer this value stands for.
    spec fn as_int(self) -> int;

    /// The value that stands for `v`, where `v` fits.
    spec fn from_int(v: int) -> Self;

    /// The smallest integer a value can stand for.
    spec fn min_int() -> int;

    /// The largest integer a value can stand for.
    spec fn max_int() -> int;

    proof fn lemma_bounds(x: Self)
        ensures
            Self::min_int() <= x.as_int() <= Self::max_int(),
            Self::min_int() < -1,
            1 < Self::max_int(),
    ;

    proof fn lemma_from_int(v: int)
        requires
            Self::min_int() <= v <= Self::max_int(),
        ensures
            Self::from_int(v).as_int() == v,
    ;

    proof fn lemma_from_as_int(x: Self)
        ensures
            Self::from_int(x.as_int()) == x,
    ;

    /// The number zero.
    fn zero() -> (r: Self)
        ensures
            r.as_int() == 0,
    ;

    /// The number one.
    fn one() -> (r: Self)
        ensures
            r.as_int() == 1,
    ;

    /// The sum of two numbers.
    fn plus(self, rhs: Self) -> (r: Self)
        requires
            Self::min_int() <= self.as_int() + rhs.as_int() <= Self::max_int(),
        ensures
            r.as_int() == self.as_int() + rhs.as_int(),
    ;

    /// The sum of two numbers, or `None` where it does not fit.
    fn checked_plus(self, rhs: Self) -> (r: Option<Self>)
        ensures
            r is Some <==> Self::min_int() <= self.as_int() + rhs.as_int() <= Self::max_int(),
            r is Some ==> r->0.as_int() == self.as_int() + rhs.as_int(),
    ;

    /// True when the number is below zero.
    fn is_negative(self) -> (r: bool)
        ensures
            r == (self.as_int() < 0),
    ;

    /// The opposite of a number, or `None` where it does not fit.
    fn checked_negated(self) -> (r: Option<Self>)
        ensures
            r is Some <==> Self::min_int() <= -self.as_int() <= Self::max_int(),
            r is Some ==> r->0.as_int() == -self.as_int(),
    ;

    /// The opposite of a number.
    fn negated(self) -> (r: Self)
        requires
            Self::min_int() <= -self.as_int() <= Self::max_int(),
        ensures
            r.as_int() == -self.as_int(),
    ;

    /// The product of two numbers.
    fn times(self, rhs: Self) -> (r: Self)
        requires
            Self::min_int() <= self.as_int() * rhs.as_int() <= Self::max_int(),
        ensures
            r.as_int() == self.as_int() * rhs.as_int(),
    ;

    /// The product of two numbers, or `None` where it does not fit.
    fn checked_times(self, rhs: Self) -> (r: Option<Self>)
        ensures
            r is Some <==> Self::min_int() <= self.as_int() * rhs.as_int() <= Self::max_int(),
            r is Some ==> r->0.as_int() == self.as_int() * rhs.as_int(),
    ;

    /// One divided by a nonzero number, rounded toward zero.
    fn reciprocal(self) -> (r: Self)
        requires
            self.as_int() != 0,
        ensures
            r.as_int() == reciprocal_int(self.as_int()),
    ;
}

/// A number no wider than 64 bits, which an `i128` holds together with any
/// sum of as many such numbers as a vector can hold.
pub trait Widen: StatNum {
    proof fn lemma_within_64_bits(x: Self)
        ensures
            -0x8000_0000_0000_0000 <= x.as_int() <= 0x7fff_ffff_ffff_ffff,
    ;

    /// The same number, held in an `i128`.
    fn widen(self) -> (r: i128)
        ensures
            r as int == self.as_int(),
    ;

    /// The number that `w` stands for, or `None` where it does not fit.
    fn narrow(w: i128) -> (r: Option<Self>)
        ensures
            r is Some <==> fits::<Self>(w as int),
            r is Some ==> r->0.as_int() == w as int,
    ;
}

/// One divided by `v`, rounded toward zero, for `v != 0`.
pub open spec fn reciprocal_int(v: int) -> int {
    if v == 1 {
        1
    } else if v == -1 {
        -1
    } else {
        0
    }
}

impl StatNum for i64 {
    open spec fn as_int(self) -> int {
        self as int
    }

    open spec fn from_int(v: int) -> Self {
        v as i64
    }

    open spec fn min_int() -> int {
        i64::MIN as int
    }

    open spec fn max_int() -> int {
        i64::MAX as int
    }

    proof fn lemma_bounds(x: Self) {
    }

    proof fn lemma_from_int(v: int) {
    }

    proof fn lemma_from_as_int(x: Self) {
    }

    fn zero() -> (r: Self) {
        0
    }

    fn one() -> (r: Self) {
        1
    }

    fn plus(self, rhs: Self) -> (r: Self) {
        self + rhs
    }

    fn checked_plus(self, rhs: Self) -> (r: Option<Self>) {
        self.checked_add(rhs)
    }

    fn is_negative(self) -> (r: bool) {
        self < 0
    }

    fn checked_negated(self) -> (r: Option<Self>) {
        if self == i64::MIN {
            None
        } else {
            Some(-self)
        }
    }

    fn negated(self) -> (r: Self) {
        -self
    }

    fn times(self, rhs: Self) -> (r: Self) {
        self * rhs
    }

    fn checked_times(self, rhs: Self) -> (r: Option<Self>) {
        self.checked_mul(rhs)
    }

    fn reciprocal(self) -> (r: Self) {
        // one over an integer, rounded toward zero, is nonzero only for one and minus one
        if self == 1 {
            1
        } else if self == -1 {
            -1
        } else {
            0
        }
    }
}

impl Widen for i64 {
    proof fn lemma_within_64_bits(x: Self) {
    }

    fn widen(self) -> (r: i128) {
        self as i128
    }

    fn narrow(w: i128) -> (r: Option<Self>) {
        if i64::MIN as i128 <= w && w <= i64::MAX as i128 {
            Some(w as i64)
        } else {
            None
        }
    }
}

impl StatNum for i32 {
    open spec fn as_int(self) -> int {
        self as int
    }

    open spec fn from_int(v: int) -> Self {
        v as i32
    }

    open spec fn min_int() -> int {
        i32::MIN as int
    }

    open spec fn max_int() -> int {
        i32::MAX as int
    }

    proof fn lemma_bounds(x: Self) {
    }

    proof fn lemma_from_int(v: int) {
    }

    proof fn lemma_from_as_int(x: Self) {
    }

    fn zero() -> (r: Self) {
        0
    }

    fn one() -> (r: Self) {
        1
    }

    fn plus(self, rhs: Self) -> (r: Self) {
        self + rhs
    }

    fn checked_plus(self, rhs: Self) -> (r: Option<Self>) {
        self.checked_add(rhs)
    }

    fn is_negative(self) -> (r: bool) {
        self < 0
    }

    fn checked_negated(self) -> (r: Option<Self>) {
        if self == i32::MIN {
            None
        } else {
            Some(-self)
        }
    }

    fn negated(self) -> (r: Self) {
        -self
    }

    fn times(self, rhs: Self) -> (r: Self) {
        self * rhs
    }

    fn checked_times(self, rhs: Self) -> (r: Option<Self>) {
        self.checked_mul(rhs)
    }

    fn reciprocal(self) -> (r: Self) {
        // one over an integer, rounded toward zero, is nonzero only for one and minus one
        if self == 1 {
            1
        } else if self == -1 {
            -1
        } else {
            0
        }
    }
}

impl Widen for i32 {
    proof fn lemma_within_64_bits(x: Self) {
    }

    fn widen(self) -> (r: i128) {
        self as i128
    }

    fn narrow(w: i128) -> (r: Option<Self>) {
        if i32::MIN as i128 <= w && w <= i32::MAX as i128 {
            Some(w as i32)
        } else {
            None
        }
    }
}

impl StatNum for i128 {
    open spec fn as_int(self) -> int {
        self as int
    }

    open spec fn from_int(v: int) -> Self {
        v as i128
    }

    open spec fn min_int() -> int {
        i128::MIN as int
    }

    open spec fn max_int() -> int {
        i128::MAX as int
    }

    proof fn lemma_bounds(x: Self) {
    }

    proof fn lemma_from_int(v: int) {
    }

    proof fn lemma_from_as_int(x: Self) {
    }

    fn zero() -> (r: Self) {
        0
    }

    fn one() -> (r: Self) {
        1
    }

    fn plus(self, rhs: Self) -> (r: Self) {
        self + rhs
    }

    fn checked_plus(self, rhs: Self) -> (r: Option<Self>) {
        self.checked_add(rhs)
    }

    fn is_negative(self) -> (r: bool) {
        self < 0
    }

    fn checked_negated(self) -> (r: Option<Self>) {
        if self == i128::MIN {
            None
        } else {
            Some(-self)
        }
    }

    fn negated(self) -> (r: Self) {
        -self
    }

    fn times(self, rhs: Self) -> (r: Self) {
        self * rhs
    }

    fn checked_times(self, rhs: Self) -> (r: Option<Self>) {
        self.checked_mul(rhs)
    }

    fn reciprocal(self) -> (r: Self) {
        // one over an integer, rounded toward zero, is nonzero only for one and minus one
        if self == 1 {
            1
        } else if self == -1 {
            -1
        } else {
            0
        }
    }
}

} // verus!
