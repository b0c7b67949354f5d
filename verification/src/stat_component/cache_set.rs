use vstd::prelude::*;

verus! {

/// A value set aside for a component, to be written to it later.
#[derive(Debug)]
pub struct CacheSet<T>(pub Option<T>);

impl<T> Default for CacheSet<T> {
    /// A cache with nothing set aside.
    fn default() -> (r: Self)
        ensures
            r.0 is None,
    {
        CacheSet(None)
    }
}

/// What `set_cache_set` leaves: the value set aside, if any, replaces `a`,
/// and the cache is emptied.
pub open spec fn cache_applied<T>(a: T, b: CacheSet<T>) -> (T, CacheSet<T>) {
    match b.0 {
        Some(v) => (v, CacheSet(None)),
        None => (a, b),
    }
}

/// Writes the value set aside in `b`, if any, to `a`, and empties `b`.
pub fn set_cache_set<T>(a: &mut T, b: &mut CacheSet<T>)
    ensures
        (*final(a), *final(b)) == cache_applied(*old(a), *old(b)),
{
    let mut taken: Option<T> = None;
    core::mem::swap(&mut b.0, &mut taken);
    if let Some(v) = taken {
        *a = v;
    }
}

/// Writing the cache a second time changes nothing: the first write emptied
/// it.
pub proof fn law_cache_set_once<T>(a: T, b: CacheSet<T>)
    ensures
        ({
            let (a1, b1) = cache_applied(a, b);
            cache_applied(a1, b1) == (a1, b1)
        }),
{
}

} // verus!
