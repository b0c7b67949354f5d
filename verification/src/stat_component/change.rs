use vstd::prelude::*;
use crate::stat_num::{StatNum, fits};

verus! {

/// The change waiting to be applied to a stat: what has been added to it since
/// it was last taken.
#[derive(Clone, Copy, Debug)]
pub struct Change<T>(pub T);

/// The change once `x` is added to it.
pub open spec fn added<T: StatNum>(c: Change<T>, x: T) -> Change<T> {
    Change(T::from_int(c.0.as_int() + x.as_int()))
}

/// A change of zero.
pub open spec fn zero_change<T: StatNum>() -> Change<T> {
    Change(T::from_int(0))
}

impl<T: StatNum> Default for Change<T> {
    /// A change of zero.
    fn default() -> (r: Self)
        ensures
            r == zero_change::<T>(),
            r.0.as_int() == 0,
    {
        let z = T::zero();
        proof {
            T::lemma_from_as_int(z);
        }
        Change(z)
    }
}

impl<T: StatNum> Change<T> {
    /// Adds `change` to what is waiting.
    pub fn add_change(&mut self, change: T)
        requires
            fits::<T>(old(self).0.as_int() + change.as_int()),
        ensures
            *final(self) == added(*old(self), change),
            final(self).0.as_int() == old(self).0.as_int() + change.as_int(),
    {
        self.0 = self.0.plus(change);
        proof {
            T::lemma_from_as_int(self.0);
        }
    }

    /// Takes what is waiting and leaves zero in its place.
    pub fn get_and_reset(&mut self) -> (r: T)
        ensures
            r == old(self).0,
            *final(self) == zero_change::<T>(),
            final(self).0.as_int() == 0,
    {
        let r = self.0;
        let z = T::zero();
        proof {
            T::lemma_from_as_int(z);
        }
        self.0 = z;
        r
    }
}

/// Moves `delta` from one change to another: `tar` gains `delta` and `src`
/// loses it, so that together they hold what they held before.
pub fn transfer_changes<T: StatNum>(delta: T, src: &mut Change<T>, tar: &mut Change<T>)
    requires
        fits::<T>(-delta.as_int()),
        fits::<T>(old(tar).0.as_int() + delta.as_int()),
        fits::<T>(old(src).0.as_int() - delta.as_int()),
    ensures
        final(tar).0.as_int() == old(tar).0.as_int() + delta.as_int(),
        final(src).0.as_int() == old(src).0.as_int() - delta.as_int(),
        final(src).0.as_int() + final(tar).0.as_int() == old(src).0.as_int() + old(tar).0.as_int(),
{
    tar.add_change(delta);
    src.add_change(delta.negated());
}

/// Adding two changes one after the other leaves what adding their sum at
/// once leaves, wherever the sums fit.
pub proof fn law_added_twice<T: StatNum>(c: Change<T>, x: T, y: T)
    requires
        fits::<T>(c.0.as_int() + x.as_int()),
        fits::<T>(x.as_int() + y.as_int()),
        fits::<T>(c.0.as_int() + x.as_int() + y.as_int()),
    ensures
        added(added(c, x), y) == added(c, T::from_int(x.as_int() + y.as_int())),
{
    T::lemma_from_int(c.0.as_int() + x.as_int());
    T::lemma_from_int(x.as_int() + y.as_int());
}

} // verus!
