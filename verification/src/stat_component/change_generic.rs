use vstd::prelude::*;
use core::marker::PhantomData;
use crate::stat_num::{StatNum, fits, reciprocal_int};

verus! {

/// A way of combining values: a unit that changes nothing, an operation that
/// applies one value to another, and an inverse that undoes a value.
///
/// `can_apply` and `can_invert` say on which values the operations are
/// defined; elsewhere the machine operation would fail.
pub trait AlgebraicSystem<T> {
    /// The value that changes nothing.
    spec fn spec_unit() -> T;

    /// `b` applied to `a`.
    spec fn spec_apply(a: T, b: T) -> T;

    /// The value that undoes `a`.
    spec fn spec_inverse(a: T) -> T;

    /// True when `b` can be applied to `a`.
    spec fn can_apply(a: T, b: T) -> bool;

    /// True when `a` has an inverse that can be computed.
    spec fn can_invert(a: T) -> bool;

    fn unit() -> (r: T)
        ensures
            r == Self::spec_unit(),
    ;

    /// Whether `b` can be applied to `a`.
    fn applies(a: &T, b: &T) -> (r: bool)
        ensures
            r == Self::can_apply(*a, *b),
    ;

    fn apply_assign(a: &mut T, b: T)
        requires
            Self::can_apply(*old(a), b),
        ensures
            *final(a) == Self::spec_apply(*old(a), b),
    ;

    fn apply(a: T, b: T) -> (r: T)
        requires
            Self::can_apply(a, b),
        ensures
            r == Self::spec_apply(a, b),
    ;

    fn inverse(a: T) -> (r: T)
        requires
            Self::can_invert(a),
        ensures
            r == Self::spec_inverse(a),
    ;
}

/// Combining by addition: the unit is zero and the inverse is the opposite.
#[derive(Debug, Default)]
pub struct AlgebraicSystemAdd;

impl<T: StatNum> AlgebraicSystem<T> for AlgebraicSystemAdd {
    open spec fn spec_unit() -> T {
        T::from_int(0)
    }

    open spec fn spec_apply(a: T, b: T) -> T {
        T::from_int(a.as_int() + b.as_int())
    }

    open spec fn spec_inverse(a: T) -> T {
        T::from_int(-a.as_int())
    }

    open spec fn can_apply(a: T, b: T) -> bool {
        fits::<T>(a.as_int() + b.as_int())
    }

    open spec fn can_invert(a: T) -> bool {
        fits::<T>(-a.as_int())
    }

    fn unit() -> (r: T) {
        let r = T::zero();
        proof {
            T::lemma_from_as_int(r);
        }
        r
    }

    fn applies(a: &T, b: &T) -> (r: bool) {
        a.checked_plus(*b).is_some()
    }

    fn apply_assign(a: &mut T, b: T) {
        *a = a.plus(b);
        proof {
            T::lemma_from_as_int(*a);
        }
    }

    fn apply(a: T, b: T) -> (r: T) {
        let r = a.plus(b);
        proof {
            T::lemma_from_as_int(r);
        }
        r
    }

    fn inverse(a: T) -> (r: T) {
        let r = a.negated();
        proof {
            T::lemma_from_as_int(r);
        }
        r
    }
}

/// Combining by multiplication: the unit is one and the inverse is one
/// divided by the value.
#[derive(Debug, Default)]
pub struct AlgebraicSystemMul;

impl<T: StatNum> AlgebraicSystem<T> for AlgebraicSystemMul {
    open spec fn spec_unit() -> T {
        T::from_int(1)
    }

    open spec fn spec_apply(a: T, b: T) -> T {
        T::from_int(a.as_int() * b.as_int())
    }

    open spec fn spec_inverse(a: T) -> T {
        T::from_int(reciprocal_int(a.as_int()))
    }

    open spec fn can_apply(a: T, b: T) -> bool {
        fits::<T>(a.as_int() * b.as_int())
    }

    open spec fn can_invert(a: T) -> bool {
        a.as_int() != 0
    }

    fn unit() -> (r: T) {
        let r = T::one();
        proof {
            T::lemma_from_as_int(r);
        }
        r
    }

    fn applies(a: &T, b: &T) -> (r: bool) {
        a.checked_times(*b).is_some()
    }

    fn apply_assign(a: &mut T, b: T) {
        *a = a.times(b);
        proof {
            T::lemma_from_as_int(*a);
        }
    }

    fn apply(a: T, b: T) -> (r: T) {
        let r = a.times(b);
        proof {
            T::lemma_from_as_int(r);
        }
        r
    }

    fn inverse(a: T) -> (r: T) {
        let r = a.reciprocal();
        proof {
            T::lemma_from_as_int(r);
        }
        r
    }
}

/// The change waiting to be applied to a stat, combined under the system `OP`.
#[derive(Debug)]
pub struct ChangeGeneric<T, OP>(pub T, pub PhantomData<OP>);

impl<T, OP: AlgebraicSystem<T>> Default for ChangeGeneric<T, OP> {
    /// A change holding the unit.
    fn default() -> (r: Self)
        ensures
            r.0 == OP::spec_unit(),
    {
        ChangeGeneric(OP::unit(), PhantomData)
    }
}

impl<T, OP: AlgebraicSystem<T>> ChangeGeneric<T, OP> {
    /// Applies `b` to what is waiting.
    pub fn add_change(&mut self, b: T)
        requires
            OP::can_apply(old(self).0, b),
        ensures
            final(self).0 == OP::spec_apply(old(self).0, b),
    {
        OP::apply_assign(&mut self.0, b);
    }

    /// Takes what is waiting and leaves the unit in its place.
    pub fn get_and_reset(&mut self) -> (r: T)
        ensures
            r == old(self).0,
            final(self).0 == OP::spec_unit(),
    {
        let mut taken = OP::unit();
        core::mem::swap(&mut self.0, &mut taken);
        taken
    }

    /// Applies what is waiting to `b` and leaves the unit in its place.
    pub fn apply_to(&mut self, b: &mut T)
        requires
            OP::can_apply(*old(b), old(self).0),
        ensures
            *final(b) == OP::spec_apply(*old(b), old(self).0),
            final(self).0 == OP::spec_unit(),
    {
        let c = self.get_and_reset();
        OP::apply_assign(b, c);
    }
}

/// Moves `delta` from one change to another: `delta` is applied to `tar`, and
/// its inverse to `src`.
pub fn transfer_changes<T: Copy, OP: AlgebraicSystem<T>>(
    delta: T,
    src: &mut ChangeGeneric<T, OP>,
    tar: &mut ChangeGeneric<T, OP>,
)
    requires
        OP::can_apply(old(tar).0, delta),
        OP::can_invert(delta),
        OP::can_apply(old(src).0, OP::spec_inverse(delta)),
    ensures
        final(tar).0 == OP::spec_apply(old(tar).0, delta),
        final(src).0 == OP::spec_apply(old(src).0, OP::spec_inverse(delta)),
{
    tar.add_change(delta);
    src.add_change(OP::inverse(delta));
}

/// Under addition, the unit changes nothing, on either side.
pub proof fn law_add_unit<T: StatNum>(a: T)
    ensures
        <AlgebraicSystemAdd as AlgebraicSystem<T>>::can_apply(a, <AlgebraicSystemAdd as AlgebraicSystem<T>>::spec_unit()),
        <AlgebraicSystemAdd as AlgebraicSystem<T>>::spec_apply(a, <AlgebraicSystemAdd as AlgebraicSystem<T>>::spec_unit()) == a,
        <AlgebraicSystemAdd as AlgebraicSystem<T>>::can_apply(<AlgebraicSystemAdd as AlgebraicSystem<T>>::spec_unit(), a),
        <AlgebraicSystemAdd as AlgebraicSystem<T>>::spec_apply(<AlgebraicSystemAdd as AlgebraicSystem<T>>::spec_unit(), a) == a,
{
    T::lemma_bounds(a);
    T::lemma_from_int(0);
    T::lemma_from_as_int(a);
}

/// Under addition, applying `b` and then `c` is applying `b` combined with
/// `c`, wherever the sums fit.
pub proof fn law_add_associative<T: StatNum>(a: T, b: T, c: T)
    requires
        fits::<T>(a.as_int() + b.as_int()),
        fits::<T>(b.as_int() + c.as_int()),
        fits::<T>(a.as_int() + b.as_int() + c.as_int()),
    ensures
        <AlgebraicSystemAdd as AlgebraicSystem<T>>::spec_apply(
            <AlgebraicSystemAdd as AlgebraicSystem<T>>::spec_apply(a, b),
            c,
        ) == <AlgebraicSystemAdd as AlgebraicSystem<T>>::spec_apply(
            a,
            <AlgebraicSystemAdd as AlgebraicSystem<T>>::spec_apply(b, c),
        ),
{
    T::lemma_from_int(a.as_int() + b.as_int());
    T::lemma_from_int(b.as_int() + c.as_int());
}

/// Under addition, the order in which two values are combined does not
/// matter.
pub proof fn law_add_commutative<T: StatNum>(a: T, b: T)
    ensures
        <AlgebraicSystemAdd as AlgebraicSystem<T>>::spec_apply(a, b)
            == <AlgebraicSystemAdd as AlgebraicSystem<T>>::spec_apply(b, a),
{
}

/// Under addition, a value combined with its inverse gives the unit.
pub proof fn law_add_inverse<T: StatNum>(a: T)
    requires
        <AlgebraicSystemAdd as AlgebraicSystem<T>>::can_invert(a),
    ensures
        <AlgebraicSystemAdd as AlgebraicSystem<T>>::can_apply(
            a,
            <AlgebraicSystemAdd as AlgebraicSystem<T>>::spec_inverse(a),
        ),
        <AlgebraicSystemAdd as AlgebraicSystem<T>>::spec_apply(
            a,
            <AlgebraicSystemAdd as AlgebraicSystem<T>>::spec_inverse(a),
        ) == <AlgebraicSystemAdd as AlgebraicSystem<T>>::spec_unit(),
{
    T::lemma_from_int(-a.as_int());
    T::lemma_bounds(a);
}

/// Under addition, a transfer keeps the total of the two changes.
pub proof fn law_add_transfer_keeps_total<T: StatNum>(delta: T, src: T, tar: T)
    requires
        <AlgebraicSystemAdd as AlgebraicSystem<T>>::can_apply(tar, delta),
        <AlgebraicSystemAdd as AlgebraicSystem<T>>::can_invert(delta),
        <AlgebraicSystemAdd as AlgebraicSystem<T>>::can_apply(
            src,
            <AlgebraicSystemAdd as AlgebraicSystem<T>>::spec_inverse(delta),
        ),
    ensures
        <AlgebraicSystemAdd as AlgebraicSystem<T>>::spec_apply(
            src,
            <AlgebraicSystemAdd as AlgebraicSystem<T>>::spec_inverse(delta),
        ).as_int() + <AlgebraicSystemAdd as AlgebraicSystem<T>>::spec_apply(tar, delta).as_int()
            == src.as_int() + tar.as_int(),
{
    T::lemma_from_int(-delta.as_int());
    T::lemma_from_int(src.as_int() - delta.as_int());
    T::lemma_from_int(tar.as_int() + delta.as_int());
}

/// Under multiplication, the unit changes nothing, on either side.
pub proof fn law_mul_unit<T: StatNum>(a: T)
    ensures
        <AlgebraicSystemMul as AlgebraicSystem<T>>::can_apply(a, <AlgebraicSystemMul as AlgebraicSystem<T>>::spec_unit()),
        <AlgebraicSystemMul as AlgebraicSystem<T>>::spec_apply(a, <AlgebraicSystemMul as AlgebraicSystem<T>>::spec_unit()) == a,
        <AlgebraicSystemMul as AlgebraicSystem<T>>::can_apply(<AlgebraicSystemMul as AlgebraicSystem<T>>::spec_unit(), a),
        <AlgebraicSystemMul as AlgebraicSystem<T>>::spec_apply(<AlgebraicSystemMul as AlgebraicSystem<T>>::spec_unit(), a) == a,
{
    T::lemma_bounds(a);
    T::lemma_from_int(1);
    T::lemma_from_as_int(a);
}

/// Under multiplication, applying `b` and then `c` is applying `b` combined
/// with `c`, wherever the products fit.
pub proof fn law_mul_associative<T: StatNum>(a: T, b: T, c: T)
    requires
        fits::<T>(a.as_int() * b.as_int()),
        fits::<T>(b.as_int() * c.as_int()),
        fits::<T>(a.as_int() * b.as_int() * c.as_int()),
    ensures
        <AlgebraicSystemMul as AlgebraicSystem<T>>::spec_apply(
            <AlgebraicSystemMul as AlgebraicSystem<T>>::spec_apply(a, b),
            c,
        ) == <AlgebraicSystemMul as AlgebraicSystem<T>>::spec_apply(
            a,
            <AlgebraicSystemMul as AlgebraicSystem<T>>::spec_apply(b, c),
        ),
{
    T::lemma_from_int(a.as_int() * b.as_int());
    T::lemma_from_int(b.as_int() * c.as_int());
    assert(a.as_int() * b.as_int() * c.as_int() == a.as_int() * (b.as_int() * c.as_int())) by (nonlinear_arith);
}

/// Under multiplication, the order in which two values are combined does not
/// matter.
pub proof fn law_mul_commutative<T: StatNum>(a: T, b: T)
    ensures
        <AlgebraicSystemMul as AlgebraicSystem<T>>::spec_apply(a, b)
            == <AlgebraicSystemMul as AlgebraicSystem<T>>::spec_apply(b, a),
{
    assert(a.as_int() * b.as_int() == b.as_int() * a.as_int()) by (nonlinear_arith);
}

/// Under multiplication of integers, a value combined with its inverse gives
/// the unit only for one and minus one: the inverse rounds toward zero.
pub proof fn law_mul_inverse<T: StatNum>(a: T)
    requires
        a.as_int() == 1 || a.as_int() == -1,
    ensures
        <AlgebraicSystemMul as AlgebraicSystem<T>>::can_invert(a),
        <AlgebraicSystemMul as AlgebraicSystem<T>>::can_apply(
            a,
            <AlgebraicSystemMul as AlgebraicSystem<T>>::spec_inverse(a),
        ),
        <AlgebraicSystemMul as AlgebraicSystem<T>>::spec_apply(
            a,
            <AlgebraicSystemMul as AlgebraicSystem<T>>::spec_inverse(a),
        ) == <AlgebraicSystemMul as AlgebraicSystem<T>>::spec_unit(),
{
    T::lemma_bounds(a);
    T::lemma_from_int(a.as_int());
    T::lemma_from_as_int(a);
}

/// Under addition, `b` can be applied to `a` exactly when their sum fits,
/// and applying gives the sum; the unit is zero, and a value can be inverted
/// exactly when its opposite fits, its inverse being that opposite.
pub proof fn law_add_apply_is_sum<T: StatNum>(a: T, b: T)
    ensures
        <AlgebraicSystemAdd as AlgebraicSystem<T>>::can_apply(a, b) <==> T::min_int() <= a.as_int() + b.as_int()
            <= T::max_int(),
        T::min_int() <= a.as_int() + b.as_int() <= T::max_int() ==> <AlgebraicSystemAdd as AlgebraicSystem<
            T,
        >>::spec_apply(a, b).as_int() == a.as_int() + b.as_int(),
        <AlgebraicSystemAdd as AlgebraicSystem<T>>::spec_unit().as_int() == 0,
        <AlgebraicSystemAdd as AlgebraicSystem<T>>::can_invert(a) <==> T::min_int() <= -a.as_int() <= T::max_int(),
        T::min_int() <= -a.as_int() <= T::max_int() ==> <AlgebraicSystemAdd as AlgebraicSystem<
            T,
        >>::spec_inverse(a).as_int() == -a.as_int(),
{
    T::lemma_bounds(a);
    T::lemma_from_int(0);
    if T::min_int() <= a.as_int() + b.as_int() <= T::max_int() {
        T::lemma_from_int(a.as_int() + b.as_int());
    }
    if T::min_int() <= -a.as_int() <= T::max_int() {
        T::lemma_from_int(-a.as_int());
    }
}

/// Under multiplication, `b` can be applied to `a` exactly when their
/// product fits, and applying gives the product; the unit is one, and every
/// nonzero value, and only such a value, can be inverted.
pub proof fn law_mul_apply_is_product<T: StatNum>(a: T, b: T)
    ensures
        <AlgebraicSystemMul as AlgebraicSystem<T>>::can_apply(a, b) <==> T::min_int() <= a.as_int() * b.as_int()
            <= T::max_int(),
        T::min_int() <= a.as_int() * b.as_int() <= T::max_int() ==> <AlgebraicSystemMul as AlgebraicSystem<
            T,
        >>::spec_apply(a, b).as_int() == a.as_int() * b.as_int(),
        <AlgebraicSystemMul as AlgebraicSystem<T>>::spec_unit().as_int() == 1,
        <AlgebraicSystemMul as AlgebraicSystem<T>>::can_invert(a) <==> a.as_int() != 0,
{
    T::lemma_bounds(a);
    T::lemma_from_int(1);
    if T::min_int() <= a.as_int() * b.as_int() <= T::max_int() {
        T::lemma_from_int(a.as_int() * b.as_int());
    }
}

/// Under multiplication, the inverse of a nonzero `a` is one divided by `a`,
/// rounded toward zero: the quotient `q` whose remainder `1 - q * a` lies in
/// `0 .. |a|`.
pub proof fn law_mul_inverse_rounds_toward_zero<T: StatNum>(a: T)
    requires
        a.as_int() != 0,
    ensures
        0 <= 1 - <AlgebraicSystemMul as AlgebraicSystem<T>>::spec_inverse(a).as_int() * a.as_int(),
        1 - <AlgebraicSystemMul as AlgebraicSystem<T>>::spec_inverse(a).as_int() * a.as_int() < if a.as_int() < 0 {
            -a.as_int()
        } else {
            a.as_int()
        },
{
    T::lemma_bounds(a);
    let x = a.as_int();
    T::lemma_from_int(reciprocal_int(x));
    let q = <AlgebraicSystemMul as AlgebraicSystem<T>>::spec_inverse(a).as_int();
    if x == 1 {
        assert(q == 1);
    } else if x == -1 {
        assert(q == -1);
        assert(q * x == 1);
    } else {
        assert(q == 0);
        assert(q * x == 0);
    }
}

} // verus!
