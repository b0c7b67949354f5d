use vstd::prelude::*;
use crate::stat_num::StatNum;

verus! {

/// The current value of a stat of an entity.
#[derive(Clone, Copy, Debug)]
pub struct Stat<T>(pub T);

impl<T: StatNum> Default for Stat<T> {
    /// A stat at zero.
    fn default() -> (r: Self)
        ensures
            r.0.as_int() == 0,
    {
        Stat(T::zero())
    }
}

} // verus!
