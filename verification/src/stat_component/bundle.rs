use vstd::prelude::*;
use crate::stat_num::StatNum;
use crate::stat_component::{change::Change, determining::Determining, stat::Stat};
use core::marker::PhantomData;

verus! {

/// A stat together with its change.
#[derive(Debug)]
pub struct StatBundle<T> {
    pub stat: Stat<T>,
    pub change: Change<T>,
}

impl<T: StatNum> Default for StatBundle<T> {
    /// A stat at zero with no change waiting.
    fn default() -> (r: Self)
        ensures
            r.stat.0.as_int() == 0,
            r.change.0.as_int() == 0,
    {
        StatBundle { stat: Stat::default(), change: Change::default() }
    }
}

impl<T: StatNum> StatBundle<T> {
    /// A stat holding `stat`, with no change waiting.
    pub fn new(stat: T) -> (r: Self)
        ensures
            r.stat.0 == stat,
            r.change.0.as_int() == 0,
    {
        StatBundle { stat: Stat(stat), change: Change::default() }
    }
}

/// A stat together with its change, marked as changed only by its change.
#[derive(Debug)]
pub struct DeterminingStatBundle<T> {
    pub stat: Stat<T>,
    pub change: Change<T>,
    pub determining: Determining<T>,
}

impl<T: StatNum> Default for DeterminingStatBundle<T> {
    /// A stat at zero with no change waiting.
    fn default() -> (r: Self)
        ensures
            r.stat.0.as_int() == 0,
            r.change.0.as_int() == 0,
    {
        DeterminingStatBundle {
            stat: Stat::default(),
            change: Change::default(),
            determining: Determining(PhantomData),
        }
    }
}

impl<T: StatNum> DeterminingStatBundle<T> {
    /// A stat holding `stat`, with no change waiting.
    pub fn new(stat: T) -> (r: Self)
        ensures
            r.stat.0 == stat,
            r.change.0.as_int() == 0,
    {
        DeterminingStatBundle {
            stat: Stat(stat),
            change: Change::default(),
            determining: Determining(PhantomData),
        }
    }
}

} // verus!
