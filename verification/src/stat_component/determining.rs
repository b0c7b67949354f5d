use vstd::prelude::*;
use core::marker::PhantomData;

verus! {

/// Marks a stat `T` whose value is only ever changed by applying its change,
/// when the changes are applied.
#[derive(Debug, Default)]
pub struct Determining<T>(pub PhantomData<T>);

} // verus!
