use vstd::prelude::*;
use crate::stat_num::{StatNum, fits};
use crate::stat_component::{change::Change, stat::Stat};
use crate::stat_component::stat_apply_change as apply;

verus! {

/// Adds the waiting change to the stat and leaves a change of zero.
pub fn stat_apply_change<T: StatNum>(change: &mut Change<T>, stat: &mut Stat<T>)
    requires
        fits::<T>(old(stat).0.as_int() + old(change).0.as_int()),
    ensures
        final(stat).0.as_int() == old(stat).0.as_int() + old(change).0.as_int(),
        final(change).0.as_int() == 0,
{
    apply::stat_apply_change(change, stat);
}

/// Moves the change waiting in `source` into `target`, leaving zero in
/// `source`.
pub fn change_apply_change<T: StatNum>(source: &mut Change<T>, target: &mut Change<T>)
    requires
        fits::<T>(old(target).0.as_int() + old(source).0.as_int()),
    ensures
        final(target).0.as_int() == old(target).0.as_int() + old(source).0.as_int(),
        final(source).0.as_int() == 0,
{
    apply::change_apply_change(source, target);
}

/// Collects schedule configurations one after the other.
#[derive(Debug, Default, Clone, Copy)]
pub struct FoldCollectCfg;

impl FoldCollectCfg {
    /// `acc` with `item` added at its end.
    pub fn call<C>(acc: Vec<C>, item: C) -> (r: Vec<C>)
        ensures
            r@ == acc@.push(item),
    {
        let mut acc = acc;
        acc.push(item);
        acc
    }
}

} // verus!
