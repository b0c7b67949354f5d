use vstd::prelude::*;
use crate::stat_num::StatNum;
use crate::stat_component::{change::{Change, zero_change}, stat::Stat};

verus! {

/// Takes a snapshot of a stat and its change: the stat as it is, and a fresh
/// change of zero.
#[derive(Debug, Default, Clone, Copy)]
pub struct MapTakeStatChange;

impl MapTakeStatChange {
    /// A copy of the stat.
    pub fn call_stat<T: StatNum>(i: &Stat<T>) -> (r: Stat<T>)
        ensures
            r == *i,
    {
        Stat(i.0)
    }

    /// A change of zero, whatever the change given holds.
    pub fn call_change<T: StatNum>(i: &Change<T>) -> (r: Change<T>)
        ensures
            r == zero_change::<T>(),
    {
        Change::default()
    }
}

} // verus!
