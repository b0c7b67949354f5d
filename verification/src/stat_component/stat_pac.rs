use vstd::prelude::*;
use crate::stat_num::{StatNum, fits};
use crate::stat_component::{change::Change, stat::Stat};

verus! {

/// A stat and its change kept together: the value, and what waits to be
/// added to it.
#[derive(Debug)]
pub struct StatPack<T>(Stat<T>, Change<T>);

impl<T> View for StatPack<T> {
    /// The value of the stat and the change waiting.
    type V = (T, T);

    closed spec fn view(&self) -> (T, T) {
        (self.0.0, self.1.0)
    }
}

/// What adding `d` to the change of a pack holding `v` leaves.
pub open spec fn pack_added<T: StatNum>(v: (T, T), d: T) -> (T, T) {
    (v.0, T::from_int(v.1.as_int() + d.as_int()))
}

/// What adding each of `ds` in turn to the change of a pack holding `v`
/// leaves.
pub open spec fn pack_added_all<T: StatNum>(v: (T, T), ds: Seq<T>) -> (T, T)
    decreases ds.len(),
{
    if ds.len() == 0 {
        v
    } else {
        pack_added(pack_added_all(v, ds.drop_last()), ds.last())
    }
}

/// The sum of the numbers `ds`.
pub open spec fn sum_of<T: StatNum>(ds: Seq<T>) -> int
    decreases ds.len(),
{
    if ds.len() == 0 {
        0
    } else {
        sum_of(ds.drop_last()) + ds.last().as_int()
    }
}

/// What applying the change of a pack holding `v` leaves: the stat with the
/// change added, and a change of zero.
pub open spec fn pack_applied<T: StatNum>(v: (T, T)) -> (T, T) {
    (T::from_int(v.0.as_int() + v.1.as_int()), T::from_int(0))
}

impl<T: StatNum> Default for StatPack<T> {
    /// A stat at zero with no change waiting.
    fn default() -> (r: Self)
        ensures
            r@.0.as_int() == 0,
            r@.1.as_int() == 0,
    {
        StatPack(Stat::default(), Change::default())
    }
}

impl<T: StatNum> StatPack<T> {
    /// A stat holding `v`, with no change waiting.
    pub fn new(v: T) -> (r: Self)
        ensures
            r@.0 == v,
            r@.1.as_int() == 0,
    {
        StatPack(Stat(v), Change::default())
    }

    /// The value of the stat.
    pub fn get(&self) -> (r: &T)
        ensures
            *r == self@.0,
    {
        &self.0.0
    }

    /// Adds `change` to what waits to be applied; the stat keeps its value.
    pub fn add_change(&mut self, change: T)
        requires
            fits::<T>(old(self)@.1.as_int() + change.as_int()),
        ensures
            final(self)@ == pack_added(old(self)@, change),
            final(self)@.0 == old(self)@.0,
            final(self)@.1.as_int() == old(self)@.1.as_int() + change.as_int(),
    {
        self.1.add_change(change);
        proof {
            T::lemma_from_as_int(self.1.0);
        }
    }

    /// Adds what waits to the stat and leaves a change of zero.
    pub fn apply_change(&mut self)
        requires
            fits::<T>(old(self)@.0.as_int() + old(self)@.1.as_int()),
        ensures
            final(self)@ == pack_applied(old(self)@),
            final(self)@.0.as_int() == old(self)@.0.as_int() + old(self)@.1.as_int(),
            final(self)@.1.as_int() == 0,
    {
        let c = self.1.get_and_reset();
        self.0.0 = self.0.0.plus(c);
        proof {
            T::lemma_from_as_int(self.0.0);
            T::lemma_from_as_int(self.1.0);
        }
    }
}

/// Applying the change of a pack twice leaves what applying it once leaves:
/// the first application leaves nothing waiting.
pub proof fn law_apply_change_twice<T: StatNum>(v: (T, T))
    requires
        fits::<T>(v.0.as_int() + v.1.as_int()),
    ensures
        pack_applied(pack_applied(v)) == pack_applied(v),
{
    T::lemma_bounds(v.0);
    T::lemma_from_int(v.0.as_int() + v.1.as_int());
    T::lemma_from_int(0);
}

/// Changes added one after the other and then applied leave the stat with
/// their sum added.
pub proof fn law_changes_add_up<T: StatNum>(v: (T, T), x: T, y: T)
    requires
        fits::<T>(v.1.as_int() + x.as_int()),
        fits::<T>(v.1.as_int() + x.as_int() + y.as_int()),
        fits::<T>(v.0.as_int() + v.1.as_int() + x.as_int() + y.as_int()),
    ensures
        pack_applied((v.0, T::from_int(T::from_int(v.1.as_int() + x.as_int()).as_int() + y.as_int()))).0.as_int()
            == v.0.as_int() + v.1.as_int() + x.as_int() + y.as_int(),
{
    T::lemma_from_int(v.1.as_int() + x.as_int());
    T::lemma_from_int(v.1.as_int() + x.as_int() + y.as_int());
    T::lemma_from_int(v.0.as_int() + v.1.as_int() + x.as_int() + y.as_int());
}

/// Changes added one after the other, any number of them, and then applied
/// leave the stat with their sum added, and nothing waiting; applying once
/// more changes nothing.
pub proof fn law_all_changes_add_up<T: StatNum>(v: (T, T), ds: Seq<T>)
    requires
        forall|k: int| 0 < k <= ds.len() ==> fits::<T>(v.1.as_int() + #[trigger] sum_of(ds.take(k))),
        fits::<T>(v.0.as_int() + v.1.as_int() + sum_of(ds)),
    ensures
        pack_added_all(v, ds).0 == v.0,
        pack_added_all(v, ds).1.as_int() == v.1.as_int() + sum_of(ds),
        pack_applied(pack_added_all(v, ds)).0.as_int() == v.0.as_int() + v.1.as_int() + sum_of(ds),
        pack_applied(pack_added_all(v, ds)).1.as_int() == 0,
        pack_applied(pack_applied(pack_added_all(v, ds))) == pack_applied(pack_added_all(v, ds)),
{
    T::lemma_bounds(v.0);
    T::lemma_from_int(0);
    law_all_changes_add_up_pending(v, ds);
    let w = pack_added_all(v, ds);
    T::lemma_from_int(v.0.as_int() + v.1.as_int() + sum_of(ds));
    law_apply_change_twice(w);
}

/// The pending change after changes are added one after the other is their
/// sum added to what was pending.
proof fn law_all_changes_add_up_pending<T: StatNum>(v: (T, T), ds: Seq<T>)
    requires
        forall|k: int| 0 < k <= ds.len() ==> fits::<T>(v.1.as_int() + #[trigger] sum_of(ds.take(k))),
    ensures
        pack_added_all(v, ds).0 == v.0,
        pack_added_all(v, ds).1.as_int() == v.1.as_int() + sum_of(ds),
    decreases ds.len(),
{
    if ds.len() > 0 {
        let init = ds.drop_last();
        assert forall|k: int| 0 < k <= init.len() implies fits::<T>(v.1.as_int() + #[trigger] sum_of(init.take(k))) by {
            assert(init.take(k) =~= ds.take(k));
        }
        assert(ds.take(ds.len() as int) =~= ds);
        law_all_changes_add_up_pending(v, init);
        T::lemma_from_int(v.1.as_int() + sum_of(ds));
    }
}

} // verus!
