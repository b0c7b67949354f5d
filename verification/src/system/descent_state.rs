//! The state of the downward propagation of values, and the lemmas that show
//! each of its steps keeps it.
use vstd::prelude::*;
use crate::system::propagation_model::{count_false, has_parent, lemma_count_false_update, lemma_count_false_le};
use crate::system::propagate_relationship::{
    PropagateRootToLeaf, handed_down, reached_value, lemma_handed_down_stable,
};

verus! {

/// The parent of `x` is an entity that has already handed its value down.
pub open spec fn parent_expanded(parents: Seq<Option<usize>>, visited: Seq<bool>, x: int) -> bool {
    &&& parents[x] is Some
    &&& (parents[x]->0 as int) < parents.len()
    &&& (parents[parents[x]->0 as int] is None || visited[parents[x]->0 as int])
}

/// The fuel `p` needs to hand its value down.
pub open spec fn fuel_of(parents: Seq<Option<usize>>, fuel: Seq<nat>, p: int) -> nat {
    if parents[p] is None {
        0
    } else {
        fuel[p]
    }
}

/// The state of the descent, but for which nodes still wait: the nodes
/// visited so far hold their values, and the values on their way are what
/// their parents hand down.
pub open spec fn descent_core<T: PropagateRootToLeaf>(
    parents: Seq<Option<usize>>,
    begin: Seq<T::DataBegin>,
    data: Seq<T::Data>,
    results: Seq<Option<T>>,
    visited: Seq<bool>,
    fuel: Seq<nat>,
    pend: Seq<(usize, T)>,
) -> bool {
    let n = parents.len() as int;
    let vc = n - count_false(visited, n);
    &&& begin.len() == n
    &&& data.len() == n
    &&& results.len() == n
    &&& visited.len() == n
    &&& fuel.len() == n
    &&& forall|x: int| 0 <= x < n ==> (#[trigger] visited[x] <==> results[x] is Some)
    &&& forall|x: int|
        0 <= x < n && #[trigger] visited[x] ==> {
            &&& 1 <= fuel[x] <= vc
            &&& handed_down::<T>(parents, begin, data, x, fuel[x]) is Some
            &&& results[x] == handed_down::<T>(parents, begin, data, x, fuel[x])
            &&& parent_expanded(parents, visited, x)
        }
    &&& forall|i: int|
        0 <= i < pend.len() ==> {
            &&& 0 <= (#[trigger] pend[i]).0 < n
            &&& !visited[pend[i].0 as int]
            &&& parent_expanded(parents, visited, pend[i].0 as int)
            &&& fuel_of(parents, fuel, parents[pend[i].0 as int]->0 as int) <= vc
            &&& handed_down::<T>(parents, begin, data, parents[pend[i].0 as int]->0 as int,
                fuel_of(parents, fuel, parents[pend[i].0 as int]->0 as int)) == Some(pend[i].1)
        }
    &&& forall|i: int, j: int| 0 <= i < j < pend.len() ==> (#[trigger] pend[i]).0 != (#[trigger] pend[j]).0
}

/// The state of the descent: besides `descent_core`, every node whose parent
/// has handed its value down is visited or on its way.
pub open spec fn descent_ok<T: PropagateRootToLeaf>(
    parents: Seq<Option<usize>>,
    begin: Seq<T::DataBegin>,
    data: Seq<T::Data>,
    results: Seq<Option<T>>,
    visited: Seq<bool>,
    fuel: Seq<nat>,
    pend: Seq<(usize, T)>,
) -> bool {
    &&& descent_core::<T>(parents, begin, data, results, visited, fuel, pend)
    &&& forall|x: int|
        0 <= x < parents.len() && !#[trigger] visited[x] && parent_expanded(parents, visited, x) ==> exists|i: int|
            0 <= i < pend.len() && (#[trigger] pend[i]).0 == x
}

/// The state of the descent while node `e` hands its value to its children:
/// those below `j` have it.
pub open spec fn descent_partial<T: PropagateRootToLeaf>(
    parents: Seq<Option<usize>>,
    begin: Seq<T::DataBegin>,
    data: Seq<T::Data>,
    results: Seq<Option<T>>,
    visited: Seq<bool>,
    fuel: Seq<nat>,
    pend: Seq<(usize, T)>,
    e: int,
    j: int,
) -> bool {
    &&& descent_core::<T>(parents, begin, data, results, visited, fuel, pend)
    &&& forall|x: int|
        0 <= x < parents.len() && !#[trigger] visited[x] && parent_expanded(parents, visited, x)
            && (parents[x]->0 as int != e || x < j) ==> exists|i: int|
            0 <= i < pend.len() && (#[trigger] pend[i]).0 == x
    &&& forall|i: int|
        0 <= i < pend.len() && parents[(#[trigger] pend[i]).0 as int]->0 as int == e ==> (pend[i].0 as int) < j
    &&& forall|x: int| 0 <= x < parents.len() && #[trigger] visited[x] ==> parents[x]->0 as int != e
}

/// Visiting the last node on its way, `e`, which works its data into what it
/// was handed.
#[verifier::spinoff_prover]
#[verifier::rlimit(60)]
pub(crate) proof fn lemma_visit<T: PropagateRootToLeaf>(
    parents: Seq<Option<usize>>,
    begin: Seq<T::DataBegin>,
    data: Seq<T::Data>,
    results0: Seq<Option<T>>,
    visited0: Seq<bool>,
    fuel0: Seq<nat>,
    pend0: Seq<(usize, T)>,
    results1: Seq<Option<T>>,
    t: T,
)
    requires
        descent_ok::<T>(parents, begin, data, results0, visited0, fuel0, pend0),
        pend0.len() > 0,
        t == pend0[pend0.len() - 1].1.spec_process_data(data[pend0[pend0.len() - 1].0 as int]),
        results1 == results0.update(pend0[pend0.len() - 1].0 as int, Some(t)),
    ensures
        ({
            let e = pend0[pend0.len() - 1].0 as int;
            let p = parents[e]->0 as int;
            let visited1 = visited0.update(e, true);
            let fuel1 = fuel0.update(e, fuel_of(parents, fuel0, p) + 1);
            &&& 0 <= e < parents.len()
            &&& parents[e] is Some
            &&& visited1[e]
            &&& fuel1[e] >= 1
            &&& handed_down::<T>(parents, begin, data, e, fuel1[e]) == Some(t)
            &&& fuel1[e] <= parents.len() - count_false(visited1, parents.len() as int)
            &&& count_false(visited1, parents.len() as int) + 1 == count_false(visited0, parents.len() as int)
            &&& descent_partial::<T>(parents, begin, data, results1, visited1, fuel1, pend0.drop_last(), e, 0)
        }),
{
    let n = parents.len() as int;
    let last = pend0.len() - 1;
    let e = pend0[last].0 as int;
    let p = parents[e]->0 as int;
    let fp = fuel_of(parents, fuel0, p);
    let visited1 = visited0.update(e, true);
    let fuel1 = fuel0.update(e, fp + 1);
    let pend1 = pend0.drop_last();
    lemma_count_false_update(visited0, e, n);
    assert(handed_down::<T>(parents, begin, data, e, fp + 1) == Some(t));
    assert forall|x: int| 0 <= x < n && #[trigger] visited1[x] implies {
        &&& 1 <= fuel1[x] <= n - count_false(visited1, n)
        &&& handed_down::<T>(parents, begin, data, x, fuel1[x]) is Some
        &&& results1[x] == handed_down::<T>(parents, begin, data, x, fuel1[x])
        &&& parent_expanded(parents, visited1, x)
    } by {
        if x != e {
            assert(visited0[x]);
        }
    }
    assert forall|i: int| 0 <= i < pend1.len() implies {
        &&& 0 <= (#[trigger] pend1[i]).0 < n
        &&& !visited1[pend1[i].0 as int]
        &&& parent_expanded(parents, visited1, pend1[i].0 as int)
        &&& fuel_of(parents, fuel1, parents[pend1[i].0 as int]->0 as int) <= n - count_false(visited1, n)
        &&& handed_down::<T>(parents, begin, data, parents[pend1[i].0 as int]->0 as int,
            fuel_of(parents, fuel1, parents[pend1[i].0 as int]->0 as int)) == Some(pend1[i].1)
    } by {
        assert(pend1[i] == pend0[i]);
        assert(pend0[i].0 != pend0[last].0);
        let px = parents[pend0[i].0 as int]->0 as int;
        assert(parent_expanded(parents, visited0, pend0[i].0 as int));
        assert(px != e);
    }
    assert(descent_core::<T>(parents, begin, data, results1, visited1, fuel1, pend1));
    assert forall|x: int|
        0 <= x < n && !#[trigger] visited1[x] && parent_expanded(parents, visited1, x)
            && (parents[x]->0 as int != e || x < 0) implies exists|i: int|
            0 <= i < pend1.len() && (#[trigger] pend1[i]).0 == x by {
        assert(parent_expanded(parents, visited0, x));
        let i = choose|i: int| 0 <= i < pend0.len() && (#[trigger] pend0[i]).0 == x;
        assert(i != last);
        assert(pend1[i].0 == x);
    }
    assert forall|i: int|
        0 <= i < pend1.len() && parents[(#[trigger] pend1[i]).0 as int]->0 as int == e implies (pend1[i].0 as int) < 0 by {
        assert(pend1[i] == pend0[i]);
        assert(parent_expanded(parents, visited0, pend0[i].0 as int));
    }
    assert forall|x: int| 0 <= x < n && #[trigger] visited1[x] implies parents[x]->0 as int != e by {
        if x != e {
            assert(parent_expanded(parents, visited0, x));
        } else {
            assert(parent_expanded(parents, visited0, pend0[last].0 as int));
        }
    }
}

/// Handing the value of `e` to its child `j`.
pub(crate) proof fn lemma_push_child<T: PropagateRootToLeaf>(
    parents: Seq<Option<usize>>,
    begin: Seq<T::DataBegin>,
    data: Seq<T::Data>,
    results: Seq<Option<T>>,
    visited: Seq<bool>,
    fuel: Seq<nat>,
    pend: Seq<(usize, T)>,
    pend1: Seq<(usize, T)>,
    e: int,
    j: int,
    t: T,
)
    requires
        0 <= e < parents.len(),
        0 <= j < parents.len(),
        visited[e],
        parents[e] is Some,
        fuel[e] >= 1,
        handed_down::<T>(parents, begin, data, e, fuel[e]) == Some(t),
        fuel[e] <= parents.len() - count_false(visited, parents.len() as int),
        has_parent(parents, j, e),
        parents.len() <= usize::MAX,
        descent_partial::<T>(parents, begin, data, results, visited, fuel, pend, e, j),
        pend1 == pend.push((j as usize, t)),
    ensures
        descent_partial::<T>(parents, begin, data, results, visited, fuel, pend1, e, j + 1),
{
    let n = parents.len() as int;
    assert(!visited[j]);
    assert(parent_expanded(parents, visited, e));
    assert forall|i: int| 0 <= i < pend1.len() implies {
        &&& 0 <= (#[trigger] pend1[i]).0 < n
        &&& !visited[pend1[i].0 as int]
        &&& parent_expanded(parents, visited, pend1[i].0 as int)
        &&& fuel_of(parents, fuel, parents[pend1[i].0 as int]->0 as int) <= n - count_false(visited, n)
        &&& handed_down::<T>(parents, begin, data, parents[pend1[i].0 as int]->0 as int,
            fuel_of(parents, fuel, parents[pend1[i].0 as int]->0 as int)) == Some(pend1[i].1)
    } by {
        if i < pend.len() {
            assert(pend1[i] == pend[i]);
        }
    }
    assert forall|i: int, i2: int| 0 <= i < i2 < pend1.len() implies (#[trigger] pend1[i]).0 != (#[trigger] pend1[i2]).0 by {
        if i2 == pend.len() {
            assert(pend1[i] == pend[i]);
            assert(pend1[i2].0 == j);
            if pend[i].0 as int == j {
                assert(parents[pend[i].0 as int]->0 as int == e);
            }
        } else {
            assert(pend1[i] == pend[i]);
            assert(pend1[i2] == pend[i2]);
        }
    }
    assert forall|x: int|
        0 <= x < n && !#[trigger] visited[x] && parent_expanded(parents, visited, x)
            && (parents[x]->0 as int != e || x < j + 1) implies exists|i: int|
            0 <= i < pend1.len() && (#[trigger] pend1[i]).0 == x by {
        if x == j {
            assert(pend1[pend.len() as int].0 == x);
        } else {
            let i = choose|i: int| 0 <= i < pend.len() && (#[trigger] pend[i]).0 == x;
            assert(pend1[i].0 == x);
        }
    }
    assert forall|i: int|
        0 <= i < pend1.len() && parents[(#[trigger] pend1[i]).0 as int]->0 as int == e implies (pend1[i].0 as int) < j + 1 by {
        if i < pend.len() {
            assert(pend1[i] == pend[i]);
        }
    }
}

pub(crate) proof fn lemma_partial_done<T: PropagateRootToLeaf>(
    parents: Seq<Option<usize>>,
    begin: Seq<T::DataBegin>,
    data: Seq<T::Data>,
    results: Seq<Option<T>>,
    visited: Seq<bool>,
    fuel: Seq<nat>,
    pend: Seq<(usize, T)>,
    e: int,
)
    requires
        descent_partial::<T>(parents, begin, data, results, visited, fuel, pend, e, parents.len() as int),
    ensures
        descent_ok::<T>(parents, begin, data, results, visited, fuel, pend),
{
}

/// Once nothing is on its way, each node holds what it is owed.
pub(crate) proof fn lemma_descent_done<T: PropagateRootToLeaf>(
    parents: Seq<Option<usize>>,
    begin: Seq<T::DataBegin>,
    data: Seq<T::Data>,
    results: Seq<Option<T>>,
    visited: Seq<bool>,
    fuel: Seq<nat>,
)
    requires
        descent_ok::<T>(parents, begin, data, results, visited, fuel, Seq::empty()),
    ensures
        forall|x: int|
            0 <= x < parents.len() ==> #[trigger] results[x] == reached_value::<T>(parents, begin, data, x),
{
    let n = parents.len() as int;
    lemma_count_false_le(visited, n);
    assert forall|x: int| 0 <= x < n implies #[trigger] results[x] == reached_value::<T>(parents, begin, data, x) by {
        if visited[x] {
            lemma_handed_down_stable::<T>(parents, begin, data, x, fuel[x], n as nat);
        } else {
            if parents[x] is Some && handed_down::<T>(parents, begin, data, x, n as nat) is Some {
                lemma_reached_visited::<T>(parents, begin, data, results, visited, fuel, x, n as nat);
            }
        }
    }
}

/// Once nothing is on its way, every node that a root reaches within `f`
/// steps has been visited.
pub(crate) proof fn lemma_reached_visited<T: PropagateRootToLeaf>(
    parents: Seq<Option<usize>>,
    begin: Seq<T::DataBegin>,
    data: Seq<T::Data>,
    results: Seq<Option<T>>,
    visited: Seq<bool>,
    fuel: Seq<nat>,
    x: int,
    f: nat,
)
    requires
        descent_ok::<T>(parents, begin, data, results, visited, fuel, Seq::empty()),
        0 <= x < parents.len(),
        parents[x] is Some,
        handed_down::<T>(parents, begin, data, x, f) is Some,
    ensures
        visited[x],
    decreases f,
{
    let p = parents[x]->0 as int;
    assert(f > 0);
    assert(handed_down::<T>(parents, begin, data, p, (f - 1) as nat) is Some);
    assert(0 <= p < parents.len());
    if parents[p] is Some {
        lemma_reached_visited::<T>(parents, begin, data, results, visited, fuel, p, (f - 1) as nat);
    }
    assert(parent_expanded(parents, visited, x));
    if !visited[x] {
        let i = choose|i: int| 0 <= i < Seq::<(usize, T)>::empty().len() && (#[trigger] Seq::<(usize, T)>::empty()[i]).0 == x;
    }
}

} // verus!
