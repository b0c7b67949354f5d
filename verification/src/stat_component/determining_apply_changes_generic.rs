use vstd::prelude::*;
use crate::stat_component::{change_generic::{AlgebraicSystem, ChangeGeneric}, stat::Stat};

verus! {

/// Applies the waiting change to the stat and leaves the unit in its place.
pub fn stat_apply_change<T, OP: AlgebraicSystem<T>>(change: &mut ChangeGeneric<T, OP>, stat: &mut Stat<T>)
    requires
        OP::can_apply(old(stat).0, old(change).0),
    ensures
        final(stat).0 == OP::spec_apply(old(stat).0, old(change).0),
        final(change).0 == OP::spec_unit(),
{
    change.apply_to(&mut stat.0);
}

/// Applies the change waiting in `source` to `target`, leaving the unit in
/// `source`.
pub fn change_apply_change<T, OP: AlgebraicSystem<T>>(
    source: &mut ChangeGeneric<T, OP>,
    target: &mut ChangeGeneric<T, OP>,
)
    requires
        OP::can_apply(old(target).0, old(source).0),
    ensures
        final(target).0 == OP::spec_apply(old(target).0, old(source).0),
        final(source).0 == OP::spec_unit(),
{
    let c = source.get_and_reset();
    target.add_change(c);
}

} // verus!
