use vstd::prelude::*;
use crate::stat_num::{StatNum, fits};
use crate::stat_component::{change::Change, stat::Stat};

verus! {

/// Adds the waiting change to the stat and leaves a change of zero.
pub fn stat_apply_change<T: StatNum>(change: &mut Change<T>, stat: &mut Stat<T>)
    requires
        fits::<T>(old(stat).0.as_int() + old(change).0.as_int()),
    ensures
        final(stat).0.as_int() == old(stat).0.as_int() + old(change).0.as_int(),
        final(change).0.as_int() == 0,
{
    let c = change.get_and_reset();
    stat.0 = stat.0.plus(c);
}

/// Moves the change waiting in `source` into `target`, leaving zero in
/// `source`; together they hold what they held before.
pub fn change_apply_change<T: StatNum>(source: &mut Change<T>, target: &mut Change<T>)
    requires
        fits::<T>(old(target).0.as_int() + old(source).0.as_int()),
    ensures
        final(target).0.as_int() == old(target).0.as_int() + old(source).0.as_int(),
        final(source).0.as_int() == 0,
        final(target).0.as_int() + final(source).0.as_int() == old(target).0.as_int() + old(source).0.as_int(),
{
    let c = source.get_and_reset();
    target.add_change(c);
}

} // verus!
